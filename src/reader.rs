//! The decoder: reads a captured byte stream back into timestamped records.
//!
//! A frame is `type(1) pad(1) delta(2) format_id(2) payload_len(2) payload`,
//! integers little-endian. Type 0 is a normal record, type 1 a record that
//! rebases the timestamp. A payload is an argument count followed by, for each
//! argument, a 4-byte length and that many raw bytes.

use vstd::prelude::*;
use vstd::slice::{slice_subrange, slice_to_vec};
use vstd::utf8::{decode_utf8, valid_utf8};
use crate::codec::{le_value, lemma_le_value_bound, lemma_pow256_facts, read_le};
use crate::registry::{get_string, resolve_spec, StringRegistry};

verus! {

/// Bytes before the first frame of a buffer image: its length as a `u64`.
pub const BUFFER_HEADER_SIZE: usize = 8;

/// Bytes of a frame before its payload.
pub const FRAME_HEADER_SIZE: usize = 8;

/// The meaning of an argument's bytes, as the decoder classifies them.
pub ghost enum ValueSpec {
    Integer(i32),
    Boolean(bool),
    Float(u64),
    Text(Seq<char>),
    Unknown(Seq<u8>),
}

/// A value extracted from a record's payload.
#[derive(Debug)]
pub enum LogValue {
    /// Four bytes, read as a little-endian two's complement integer.
    Integer(i32),
    /// One byte: true unless it is zero.
    Boolean(bool),
    /// Eight bytes, kept as the little-endian bit pattern of a 64-bit float.
    Float(u64),
    /// Any other length of valid UTF-8.
    String(String),
    /// Any other length of bytes that are not UTF-8.
    Unknown(Vec<u8>),
}

impl View for LogValue {
    type V = ValueSpec;

    open spec fn view(&self) -> ValueSpec {
        match self {
            LogValue::Integer(i) => ValueSpec::Integer(*i),
            LogValue::Boolean(b) => ValueSpec::Boolean(*b),
            LogValue::Float(f) => ValueSpec::Float(*f),
            LogValue::String(s) => ValueSpec::Text(s@),
            LogValue::Unknown(b) => ValueSpec::Unknown(b@),
        }
    }
}

/// The two's complement reading of a 32-bit pattern.
pub open spec fn i32_of(u: nat) -> i32 {
    if u < 0x8000_0000 {
        u as i32
    } else {
        (u - 0x1_0000_0000) as i32
    }
}

/// How an argument is classified by its length: 1 byte a boolean, 4 an
/// integer, 8 a float, else text when it is valid UTF-8, else opaque bytes.
pub open spec fn classify_spec(a: Seq<u8>) -> ValueSpec {
    if a.len() == 1 {
        ValueSpec::Boolean(a[0] != 0)
    } else if a.len() == 4 {
        ValueSpec::Integer(i32_of(le_value(a)))
    } else if a.len() == 8 {
        ValueSpec::Float(le_value(a) as u64)
    } else if valid_utf8(a) {
        ValueSpec::Text(decode_utf8(a))
    } else {
        ValueSpec::Unknown(a)
    }
}

/// Up to `k` arguments read from `p` at `pos`; reading stops at the first
/// argument whose length or bytes run past the payload.
pub open spec fn parse_args(p: Seq<u8>, pos: int, k: nat) -> Seq<ValueSpec>
    decreases k,
{
    if k == 0 || pos < 0 || pos + 4 > p.len() {
        Seq::empty()
    } else {
        let size = le_value(p.subrange(pos, pos + 4));
        if pos + 4 + size > p.len() {
            Seq::empty()
        } else {
            seq![classify_spec(p.subrange(pos + 4, pos + 4 + size))] + parse_args(
                p,
                pos + 4 + size,
                (k - 1) as nat,
            )
        }
    }
}

/// The arguments of a payload.
pub open spec fn params_spec(p: Seq<u8>) -> Seq<ValueSpec> {
    if p.len() == 0 {
        Seq::empty()
    } else {
        parse_args(p, 1, p[0] as nat)
    }
}

pub open spec fn values_view(v: Seq<LogValue>) -> Seq<ValueSpec> {
    v.map_values(|x: LogValue| x@)
}

/// A decoded record, without its format string.
pub ghost struct EntrySpec {
    pub timestamp: u64,
    pub format_id: u16,
    pub payload: Seq<u8>,
    pub params: Seq<ValueSpec>,
}

pub open spec fn entry_spec(timestamp: u64, format_id: u16, payload: Seq<u8>) -> EntrySpec {
    EntrySpec { timestamp, format_id, payload, params: params_spec(payload) }
}

pub open spec fn sat_add(a: u64, b: nat) -> u64 {
    if a + b > u64::MAX {
        u64::MAX
    } else {
        (a + b) as u64
    }
}

/// One call of the decoder on `data` at `pos` with base `base`: the entry it
/// returns, if any, and the position and base it leaves.
///
/// Running out of bytes gives nothing. A truncated frame header or an unknown
/// record type gives nothing and moves to the end, so that decoding stops. A
/// payload length past the end is clamped to the bytes that remain. A type 1
/// frame sets the base: to the first 8 payload bytes when there are that many,
/// else to its delta. A type 1 frame with format ID 0 is a bare rebase marker
/// and is consumed; the next frame is read.
pub open spec fn read_step(data: Seq<u8>, pos: int, base: Option<u64>) -> (
    Option<EntrySpec>,
    int,
    Option<u64>,
)
    decreases data.len() - pos,
{
    if pos < 0 || pos >= data.len() {
        (None, pos, base)
    } else if pos + 8 > data.len() || data[pos] > 1 {
        (None, data.len() as int, base)
    } else {
        let delta = le_value(data.subrange(pos + 2, pos + 4));
        let fid = le_value(data.subrange(pos + 4, pos + 6)) as u16;
        let plen = le_value(data.subrange(pos + 6, pos + 8));
        let end = if pos + 8 + plen <= data.len() {
            pos + 8 + plen
        } else {
            data.len() as int
        };
        let payload = data.subrange(pos + 8, end);
        if data[pos] == 0 {
            let ts = match base {
                Some(b) => sat_add(b, delta),
                None => 0u64,
            };
            (Some(entry_spec(ts, fid, payload)), end, base)
        } else {
            let nb: u64 = if payload.len() >= 8 {
                le_value(payload.subrange(0, 8)) as u64
            } else {
                delta as u64
            };
            if fid == 0 {
                read_step(data, end, Some(nb))
            } else {
                (Some(entry_spec(nb, fid, payload)), end, Some(nb))
            }
        }
    }
}

/// Whether the call described by `read_step` stops on a malformed frame: a
/// truncated frame header or an unknown record type, possibly after bare
/// rebase markers.
pub open spec fn stops_malformed(data: Seq<u8>, pos: int, base: Option<u64>) -> bool
    decreases data.len() - pos,
{
    if pos < 0 || pos >= data.len() {
        false
    } else if pos + 8 > data.len() || data[pos] > 1 {
        true
    } else {
        let delta = le_value(data.subrange(pos + 2, pos + 4));
        let fid = le_value(data.subrange(pos + 4, pos + 6)) as u16;
        let plen = le_value(data.subrange(pos + 6, pos + 8));
        let end = if pos + 8 + plen <= data.len() {
            pos + 8 + plen
        } else {
            data.len() as int
        };
        let payload = data.subrange(pos + 8, end);
        if data[pos] == 1 && fid == 0 {
            let nb: u64 = if payload.len() >= 8 {
                le_value(payload.subrange(0, 8)) as u64
            } else {
                delta as u64
            };
            stops_malformed(data, end, Some(nb))
        } else {
            false
        }
    }
}

/// One record read from a stream.
#[derive(Debug)]
pub struct LogEntry {
    /// Absolute time of the record: its base plus its delta.
    pub timestamp: u64,
    /// ID of the format string.
    pub format_id: u16,
    /// The format string, when the registry knows the ID.
    pub format_string: Option<String>,
    /// The arguments, classified by length.
    pub parameters: Vec<LogValue>,
    /// The payload bytes as they were in the stream.
    pub raw_values: Vec<u8>,
}

impl View for LogEntry {
    type V = EntrySpec;

    open spec fn view(&self) -> EntrySpec {
        EntrySpec {
            timestamp: self.timestamp,
            format_id: self.format_id,
            payload: self.raw_values@,
            params: values_view(self.parameters@),
        }
    }
}

/// Relies on `std::str::from_utf8`: it succeeds exactly when the bytes are
/// valid UTF-8, and then gives the string they encode.
#[verifier::external_body]
fn utf8_text(bytes: &[u8]) -> (r: Option<String>)
    ensures
        r is Some <==> valid_utf8(bytes@),
        r is Some ==> r.unwrap()@ == decode_utf8(bytes@),
{
    match std::str::from_utf8(bytes) {
        Ok(s) => Some(s.to_string()),
        Err(_) => None,
    }
}

/// Classifies one argument's bytes by their length.
pub fn classify_argument(raw: &[u8]) -> (r: LogValue)
    ensures
        r@ == classify_spec(raw@),
{
    let n = raw.len();
    if n == 1 {
        LogValue::Boolean(raw[0] != 0)
    } else if n == 4 {
        let u = read_le(raw, 0, 4);
        proof {
            assert(raw@.subrange(0, 4) =~= raw@);
            lemma_le_value_bound(raw@);
            lemma_pow256_facts();
        }
        let i: i32 = if u < 0x8000_0000 {
            u as i32
        } else {
            (u - 0x8000_0000) as i32 - 0x4000_0000 - 0x4000_0000
        };
        LogValue::Integer(i)
    } else if n == 8 {
        let u = read_le(raw, 0, 8);
        proof {
            assert(raw@.subrange(0, 8) =~= raw@);
        }
        LogValue::Float(u)
    } else {
        match utf8_text(raw) {
            Some(s) => LogValue::String(s),
            None => LogValue::Unknown(slice_to_vec(raw)),
        }
    }
}

/// Sequential reader over a captured byte stream.
pub struct LogReader<'a> {
    data: &'a [u8],
    pos: usize,
    base_timestamp: Option<u64>,
    malformed: bool,
}

/// What a reader holds: the stream, the position of the next frame, the
/// current base timestamp, and whether decoding stopped on a malformed frame.
pub ghost struct ReaderView {
    pub data: Seq<u8>,
    pub pos: int,
    pub base: Option<u64>,
    pub malformed: bool,
}

impl<'a> View for LogReader<'a> {
    type V = ReaderView;

    closed spec fn view(&self) -> ReaderView {
        ReaderView {
            data: self.data@,
            pos: self.pos as int,
            base: self.base_timestamp,
            malformed: self.malformed,
        }
    }
}

impl<'a> LogReader<'a> {
    /// A reader at the start of `data`, past the buffer header when the data
    /// is long enough to hold one, with no base timestamp.
    pub fn new(data: &'a [u8]) -> (r: Self)
        ensures
            r@.data == data@,
            r@.pos == if data@.len() >= 8 { 8int } else { 0int },
            r@.base is None,
            !r@.malformed,
    {
        let pos: usize = if data.len() >= BUFFER_HEADER_SIZE {
            BUFFER_HEADER_SIZE
        } else {
            0
        };
        LogReader { data, pos, base_timestamp: None, malformed: false }
    }

    fn read_u16(&mut self) -> (r: Option<u16>)
        ensures
            final(self).data == old(self).data,
            final(self).base_timestamp == old(self).base_timestamp,
            final(self).malformed == old(self).malformed,
            old(self).pos + 2 <= old(self).data@.len() ==> r == Some(
                le_value(old(self).data@.subrange(old(self).pos as int, old(self).pos + 2)) as u16,
            ) && final(self).pos == old(self).pos + 2,
            old(self).pos + 2 > old(self).data@.len() ==> r is None && final(self).pos
                == old(self).pos,
    {
        if self.pos <= self.data.len() && self.data.len() - self.pos >= 2 {
            let v = read_le(self.data, self.pos, 2);
            proof {
                lemma_le_value_bound(self.data@.subrange(self.pos as int, self.pos + 2));
                lemma_pow256_facts();
            }
            self.pos = self.pos + 2;
            Some(v as u16)
        } else {
            None
        }
    }

    fn read_bytes(&mut self, len: usize) -> (r: Option<&'a [u8]>)
        ensures
            final(self).data == old(self).data,
            final(self).base_timestamp == old(self).base_timestamp,
            final(self).malformed == old(self).malformed,
            old(self).pos + len <= old(self).data@.len() ==> r is Some && r.unwrap()@
                == old(self).data@.subrange(old(self).pos as int, old(self).pos + len)
                && final(self).pos == old(self).pos + len,
            old(self).pos + len > old(self).data@.len() ==> r is None && final(self).pos
                == old(self).pos,
    {
        if self.pos <= self.data.len() && self.data.len() - self.pos >= len {
            let s = slice_subrange(self.data, self.pos, self.pos + len);
            self.pos = self.pos + len;
            Some(s)
        } else {
            None
        }
    }

    /// The arguments of a payload, classified by length.
    fn extract_parameters(&self, payload: &[u8]) -> (r: Vec<LogValue>)
        ensures
            values_view(r@) == params_spec(payload@),
    {
        let mut parameters: Vec<LogValue> = Vec::new();
        let n = payload.len();
        if n == 0 {
            assert(values_view(parameters@) =~= Seq::<ValueSpec>::empty());
            return parameters;
        }
        let count = payload[0] as usize;
        let mut pos: usize = 1;
        let mut i: usize = 0;
        proof {
            lemma_pow256_facts();
        }
        while i < count
            invariant
                n == payload@.len(),
                n > 0,
                count == payload@[0] as nat,
                i <= count,
                1 <= pos <= n,
                values_view(parameters@) + parse_args(payload@, pos as int, (count - i) as nat)
                    == params_spec(payload@),
            decreases count - i,
        {
            let ghost rest = parse_args(payload@, pos as int, (count - i) as nat);
            if n - pos < 4 {
                assert(rest =~= Seq::<ValueSpec>::empty());
                assert(values_view(parameters@) =~= values_view(parameters@) + rest);
                return parameters;
            }
            let size64 = read_le(payload, pos, 4);
            proof {
                lemma_le_value_bound(payload@.subrange(pos as int, pos + 4));
            }
            if ((n - pos - 4) as u64) < size64 {
                assert(rest =~= Seq::<ValueSpec>::empty());
                assert(values_view(parameters@) =~= values_view(parameters@) + rest);
                return parameters;
            }
            let size = size64 as usize;
            let arg = slice_subrange(payload, pos + 4, pos + 4 + size);
            let value = classify_argument(arg);
            let ghost before = parameters@;
            parameters.push(value);
            assert(values_view(parameters@) =~= values_view(before).push(value@));
            assert(rest =~= seq![value@] + parse_args(
                payload@,
                (pos + 4 + size) as int,
                (count - i - 1) as nat,
            ));
            assert(values_view(parameters@) + parse_args(
                payload@,
                (pos + 4 + size) as int,
                (count - i - 1) as nat,
            ) =~= values_view(before) + rest);
            pos = pos + 4 + size;
            i = i + 1;
        }
        assert(parse_args(payload@, pos as int, (count - i) as nat) =~= Seq::<ValueSpec>::empty());
        assert(values_view(parameters@) =~= values_view(parameters@) + parse_args(
            payload@,
            pos as int,
            (count - i) as nat,
        ));
        parameters
    }
    /// The next record, or `None` once the stream is exhausted or malformed.
    /// Its format string is looked up in `registry`.
    pub fn read_entry(&mut self, registry: &StringRegistry) -> (r: Option<LogEntry>)
        ensures
            ({
                let (e, pos, base) = read_step(old(self)@.data, old(self)@.pos, old(self)@.base);
                &&& final(self)@ == ReaderView {
                    data: old(self)@.data,
                    pos,
                    base,
                    malformed: old(self)@.malformed || stops_malformed(
                        old(self)@.data,
                        old(self)@.pos,
                        old(self)@.base,
                    ),
                }
                &&& r is Some <==> e is Some
                &&& r is Some ==> r.unwrap()@ == e.unwrap()
                &&& r is Some ==> (r.unwrap().format_string is Some <==> resolve_spec(
                    registry@,
                    e.unwrap().format_id as int,
                ) is Some)
                &&& r is Some && r.unwrap().format_string is Some
                    ==> r.unwrap().format_string.unwrap()@ == resolve_spec(
                    registry@,
                    e.unwrap().format_id as int,
                ).unwrap()
            }),
    {
        let len = self.data.len();
        proof {
            lemma_pow256_facts();
        }
        loop
            invariant
                len == self.data@.len(),
                self.data@ == old(self).data@,
                read_step(self.data@, self.pos as int, self.base_timestamp) == read_step(
                    old(self).data@,
                    old(self).pos as int,
                    old(self).base_timestamp,
                ),
                self.malformed == old(self).malformed,
                stops_malformed(self.data@, self.pos as int, self.base_timestamp)
                    == stops_malformed(
                    old(self).data@,
                    old(self).pos as int,
                    old(self).base_timestamp,
                ),
            decreases len - self.pos,
        {
            if self.pos >= len {
                return None;
            }
            let start = self.pos;
            if len - start < FRAME_HEADER_SIZE {
                self.pos = len;
                self.malformed = true;
                return None;
            }
            let kind = self.data[start];
            let ghost old_base = self.base_timestamp;
            if kind > 1 {
                self.pos = len;
                self.malformed = true;
                return None;
            }
            self.pos = start + 2;
            let delta = match self.read_u16() {
                Some(v) => v,
                None => {
                    return None;
                },
            };
            let format_id = match self.read_u16() {
                Some(v) => v,
                None => {
                    return None;
                },
            };
            let payload_len = match self.read_u16() {
                Some(v) => v,
                None => {
                    return None;
                },
            };
            let remaining = len - self.pos;
            let actual = if (payload_len as usize) <= remaining {
                payload_len as usize
            } else {
                remaining
            };
            let payload = match self.read_bytes(actual) {
                Some(p) => p,
                None => {
                    return None;
                },
            };
            let ghost data = self.data@;
            let ghost spec_payload = data.subrange(start + 8, self.pos as int);
            assert(payload@ == spec_payload);
            proof {
                lemma_pow256_facts();
                lemma_le_value_bound(data.subrange(start + 2, start + 4));
                lemma_le_value_bound(data.subrange(start + 4, start + 6));
                lemma_le_value_bound(data.subrange(start + 6, start + 8));
                assert(delta as nat == le_value(data.subrange(start + 2, start + 4)));
                assert(format_id == le_value(data.subrange(start + 4, start + 6)) as u16);
                assert(payload_len as nat == le_value(data.subrange(start + 6, start + 8)));
            }
            if kind == 0 {
                let timestamp = match self.base_timestamp {
                    Some(b) => b.saturating_add(delta as u64),
                    None => 0,
                };
                assert(read_step(data, start as int, old_base) == (
                    Some(entry_spec(timestamp, format_id, payload@)),
                    self.pos as int,
                    old_base,
                ));
                return Some(self.make_entry(registry, timestamp, format_id, payload));
            }
            let base = if payload.len() >= 8 {
                read_le(payload, 0, 8)
            } else {
                delta as u64
            };
            proof {
                if payload@.len() >= 8 {
                    lemma_le_value_bound(payload@.subrange(0, 8));
                }
            }
            self.base_timestamp = Some(base);
            assert(read_step(data, start as int, old_base) == if format_id == 0 {
                read_step(data, self.pos as int, Some(base))
            } else {
                (Some(entry_spec(base, format_id, payload@)), self.pos as int, Some(base))
            });
            if format_id != 0 {
                return Some(self.make_entry(registry, base, format_id, payload));
            }
        }
    }

    /// Whether decoding stopped on a malformed frame.
    pub fn malformed(&self) -> (r: bool)
        ensures
            r == self@.malformed,
    {
        self.malformed
    }

    fn make_entry(
        &self,
        registry: &StringRegistry,
        timestamp: u64,
        format_id: u16,
        payload: &[u8],
    ) -> (r: LogEntry)
        ensures
            r@ == entry_spec(timestamp, format_id, payload@),
            r.format_string is Some <==> resolve_spec(registry@, format_id as int) is Some,
            r.format_string is Some ==> r.format_string.unwrap()@ == resolve_spec(
                registry@,
                format_id as int,
            ).unwrap(),
    {
        let format_string = match get_string(registry, format_id) {
            Some(s) => Some(s.to_owned()),
            None => None,
        };
        let parameters = self.extract_parameters(payload);
        LogEntry {
            timestamp,
            format_id,
            format_string,
            parameters,
            raw_values: slice_to_vec(payload),
        }
    }
}

} // verus!
