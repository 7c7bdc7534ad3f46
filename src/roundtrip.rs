//! Laws that tie the encoder and the producer to the decoder.

use vstd::prelude::*;
use vstd::utf8::{decode_utf8_encode_utf8, encode_utf8, valid_utf8};
use crate::codec::{
    le_encode, le_value, lemma_le_encode_len, lemma_le_round_trip, lemma_le_value_bound,
    lemma_pow256_facts, pow256,
};
use crate::clock::relative_step;
use crate::producer::{append_spec, buffer_image, frame_bytes, record_too_large, LoggerView};
use crate::reader::{classify_spec, i32_of, params_spec, parse_args, read_step, EntrySpec, ValueSpec};
use crate::record::{args_bytes, payload_fits, payload_spec};

verus! {

/// The 32-bit pattern of an integer.
pub open spec fn i32_bits(i: i32) -> nat {
    if i >= 0 {
        i as nat
    } else {
        (i + 0x1_0000_0000) as nat
    }
}

/// The bytes that a decoded value stands for.
pub open spec fn value_bytes(v: ValueSpec) -> Seq<u8> {
    match v {
        ValueSpec::Integer(i) => le_encode(i32_bits(i), 4),
        ValueSpec::Boolean(b) => seq![if b { 1u8 } else { 0u8 }],
        ValueSpec::Float(bits) => le_encode(bits as nat, 8),
        ValueSpec::Text(s) => encode_utf8(s),
        ValueSpec::Unknown(b) => b,
    }
}

/// An argument that its classification keeps exactly: a one-byte argument
/// holds a boolean (0 or 1), and one whose length is not 1, 4 or 8 is valid
/// UTF-8.
pub open spec fn representable(a: Seq<u8>) -> bool {
    &&& a.len() == 1 ==> a[0] <= 1
    &&& (a.len() != 1 && a.len() != 4 && a.len() != 8) ==> valid_utf8(a)
}

/// Encoding the value that bytes decode to gives the bytes back.
pub proof fn lemma_le_encode_value(s: Seq<u8>)
    ensures
        le_encode(le_value(s), s.len()) == s,
    decreases s.len(),
{
    if s.len() > 0 {
        let r = le_value(s.drop_first());
        lemma_le_encode_value(s.drop_first());
        let v = s[0] as nat + 256 * r;
        assert(v % 256 == s[0] as nat && v / 256 == r) by (nonlinear_arith)
            requires
                v == s[0] as nat + 256 * r,
                s[0] < 256,
        ;
        assert(le_encode(v, s.len()) =~= seq![s[0]] + s.drop_first());
        assert(seq![s[0]] + s.drop_first() =~= s);
    }
}

/// A representable argument is classified into a value that stands for
/// exactly its bytes.
pub proof fn lemma_classify_keeps_bytes(a: Seq<u8>)
    requires
        representable(a),
    ensures
        value_bytes(classify_spec(a)) == a,
{
    lemma_pow256_facts();
    if a.len() == 1 {
        assert(seq![if a[0] != 0 { 1u8 } else { 0u8 }] =~= a);
    } else if a.len() == 4 {
        lemma_le_value_bound(a);
        lemma_le_encode_value(a);
        let u = le_value(a);
        assert(i32_bits(i32_of(u)) == u);
    } else if a.len() == 8 {
        lemma_le_value_bound(a);
        lemma_le_encode_value(a);
    } else {
        decode_utf8_encode_utf8(a);
    }
}

/// Arguments laid out from `pos` are read back one by one, each classified.
pub proof fn lemma_parse_args(p: Seq<u8>, pos: int, args: Seq<Seq<u8>>)
    requires
        0 <= pos,
        pos + args_bytes(args).len() <= p.len(),
        p.subrange(pos, pos + args_bytes(args).len()) == args_bytes(args),
        forall|i: int| 0 <= i < args.len() ==> (#[trigger] args[i]).len() < pow256(4),
    ensures
        parse_args(p, pos, args.len()) == args.map_values(|a: Seq<u8>| classify_spec(a)),
    decreases args.len(),
{
    if args.len() == 0 {
        assert(args.map_values(|a: Seq<u8>| classify_spec(a)) =~= Seq::<ValueSpec>::empty());
    } else {
        let a = args[0];
        let rest = args.drop_first();
        let n = a.len() as int;
        let whole = args_bytes(args);
        lemma_le_round_trip(n as nat, 4);
        assert(whole == le_encode(n as nat, 4) + a + args_bytes(rest));
        assert(p.subrange(pos, pos + 4) =~= whole.subrange(0, 4));
        assert(whole.subrange(0, 4) =~= le_encode(n as nat, 4));
        assert(p.subrange(pos + 4, pos + 4 + n) =~= whole.subrange(4, 4 + n));
        assert(whole.subrange(4, 4 + n) =~= a);
        assert(p.subrange(pos + 4 + n, pos + 4 + n + args_bytes(rest).len()) =~= whole.subrange(
            4 + n,
            whole.len() as int,
        ));
        assert(whole.subrange(4 + n, whole.len() as int) =~= args_bytes(rest));
        assert forall|i: int| 0 <= i < rest.len() implies (#[trigger] rest[i]).len() < pow256(
            4,
        ) by {
            assert(rest[i] == args[i + 1]);
        }
        lemma_parse_args(p, pos + 4 + n, rest);
        assert(args.map_values(|a: Seq<u8>| classify_spec(a)) =~= seq![classify_spec(a)]
            + rest.map_values(|a: Seq<u8>| classify_spec(a)));
    }
}

/// Decoding an encoded payload gives back the classification of each
/// argument, in order; and representable arguments come back byte for byte.
pub proof fn lemma_payload_round_trip(args: Seq<Seq<u8>>)
    requires
        payload_fits(args),
    ensures
        params_spec(payload_spec(args)) == args.map_values(|a: Seq<u8>| classify_spec(a)),
        (forall|i: int| 0 <= i < args.len() ==> representable(#[trigger] args[i])) ==> params_spec(
            payload_spec(args),
        ).map_values(|v: ValueSpec| value_bytes(v)) == args,
{
    let p = payload_spec(args);
    lemma_pow256_facts();
    assert forall|i: int| 0 <= i < args.len() implies (#[trigger] args[i]).len() < pow256(4) by {
        lemma_arg_within(args, i);
    }
    assert(p.subrange(1, 1 + args_bytes(args).len() as int) =~= args_bytes(args));
    lemma_parse_args(p, 1, args);
    assert(p[0] as nat == args.len());
    if forall|i: int| 0 <= i < args.len() ==> representable(#[trigger] args[i]) {
        let vs = args.map_values(|a: Seq<u8>| classify_spec(a));
        assert forall|i: int| 0 <= i < args.len() implies vs.map_values(
            |v: ValueSpec| value_bytes(v),
        )[i] == args[i] by {
            lemma_classify_keeps_bytes(args[i]);
        }
        assert(vs.map_values(|v: ValueSpec| value_bytes(v)) =~= args);
    }
}

/// Each argument is shorter than the bytes of all of them.
pub proof fn lemma_arg_within(args: Seq<Seq<u8>>, i: int)
    requires
        0 <= i < args.len(),
    ensures
        args[i].len() <= args_bytes(args).len(),
    decreases args.len(),
{
    if i > 0 {
        lemma_arg_within(args.drop_first(), i - 1);
    }
}

/// One record handed to the producer: its tick, format ID and payload.
pub ghost struct AppendOp {
    pub now: u64,
    pub format_id: u16,
    pub payload: Seq<u8>,
}

/// The producer after the records `ops`, in order.
pub open spec fn run_appends(v: LoggerView, cap: nat, ops: Seq<AppendOp>) -> LoggerView
    decreases ops.len(),
{
    if ops.len() == 0 {
        v
    } else {
        run_appends(
            append_spec(v, cap, ops[0].now, ops[0].format_id, ops[0].payload),
            cap,
            ops.drop_first(),
        )
    }
}

/// The frames that the records `ops` become, starting from compressor base
/// `clock`.
pub open spec fn run_frames(clock: Option<u64>, ops: Seq<AppendOp>) -> Seq<u8>
    decreases ops.len(),
{
    if ops.len() == 0 {
        Seq::empty()
    } else {
        let (c, delta, rebased) = relative_step(clock, ops[0].now);
        frame_bytes(rebased, delta, ops[0].format_id, ops[0].payload) + run_frames(
            c,
            ops.drop_first(),
        )
    }
}

/// The frames of the handed-off images, one image after another, without
/// their headers.
pub open spec fn image_bodies(sent: Seq<Seq<u8>>) -> Seq<u8>
    decreases sent.len(),
{
    if sent.len() == 0 {
        Seq::empty()
    } else {
        image_bodies(sent.drop_last()) + sent.last().subrange(8, sent.last().len() as int)
    }
}

/// Every frame a producer has written: those handed off, then those pending.
pub open spec fn stream(v: LoggerView) -> Seq<u8> {
    image_bodies(v.sent) + v.pending
}

/// Up to `n` entries read one after another from `pos`.
pub open spec fn decode_n(data: Seq<u8>, pos: int, base: Option<u64>, n: nat) -> Seq<EntrySpec>
    decreases n,
{
    if n == 0 {
        Seq::empty()
    } else {
        let (e, p, b) = read_step(data, pos, base);
        match e {
            Some(x) => seq![x] + decode_n(data, p, b, (n - 1) as nat),
            None => Seq::empty(),
        }
    }
}

pub proof fn lemma_frame_len(rebased: bool, delta: u16, format_id: u16, payload: Seq<u8>)
    ensures
        frame_bytes(rebased, delta, format_id, payload).len() == 8 + payload.len(),
{
    lemma_le_encode_len(delta as nat, 2);
    lemma_le_encode_len(format_id as nat, 2);
    lemma_le_encode_len(payload.len(), 2);
}

/// Appending a record adds its frame to the producer's stream, whether or not
/// a hand-off came first.
pub proof fn lemma_append_stream(v: LoggerView, cap: nat, now: u64, format_id: u16, payload: Seq<u8>)
    ensures
        ({
            let (c, delta, rebased) = relative_step(v.clock, now);
            &&& stream(append_spec(v, cap, now, format_id, payload)) == stream(v) + frame_bytes(
                rebased,
                delta,
                format_id,
                payload,
            )
            &&& append_spec(v, cap, now, format_id, payload).clock == c
        }),
{
    let (c, delta, rebased) = relative_step(v.clock, now);
    let f = frame_bytes(rebased, delta, format_id, payload);
    let w = append_spec(v, cap, now, format_id, payload);
    if 8 + v.pending.len() + f.len() > cap {
        let img = buffer_image(v.pending);
        lemma_le_encode_len(v.pending.len(), 8);
        assert(w.sent.drop_last() =~= v.sent);
        assert(img.subrange(8, img.len() as int) =~= v.pending);
        assert(stream(w) =~= stream(v) + f);
    } else {
        assert(stream(w) =~= stream(v) + f);
    }
}

pub proof fn lemma_run_stream(v: LoggerView, cap: nat, ops: Seq<AppendOp>)
    ensures
        stream(run_appends(v, cap, ops)) == stream(v) + run_frames(v.clock, ops),
    decreases ops.len(),
{
    if ops.len() == 0 {
        assert(stream(v) + run_frames(v.clock, ops) =~= stream(v));
    } else {
        let w = append_spec(v, cap, ops[0].now, ops[0].format_id, ops[0].payload);
        lemma_append_stream(v, cap, ops[0].now, ops[0].format_id, ops[0].payload);
        lemma_run_stream(w, cap, ops.drop_first());
        let (c, delta, rebased) = relative_step(v.clock, ops[0].now);
        let f = frame_bytes(rebased, delta, ops[0].format_id, ops[0].payload);
        assert(stream(v) + f + run_frames(c, ops.drop_first()) =~= stream(v) + run_frames(
            v.clock,
            ops,
        ));
    }
}

/// A frame in the stream reads back as an entry with its format ID and
/// payload, and the reader moves past it.
pub proof fn lemma_read_frame(
    data: Seq<u8>,
    pos: int,
    base: Option<u64>,
    rebased: bool,
    delta: u16,
    format_id: u16,
    payload: Seq<u8>,
)
    requires
        0 <= pos,
        pos + 8 + payload.len() <= data.len(),
        data.subrange(pos, pos + 8 + payload.len()) == frame_bytes(
            rebased,
            delta,
            format_id,
            payload,
        ),
        format_id != 0,
        payload.len() < 0x1_0000,
    ensures
        read_step(data, pos, base).0 is Some,
        read_step(data, pos, base).0.unwrap().format_id == format_id,
        read_step(data, pos, base).0.unwrap().payload == payload,
        read_step(data, pos, base).0.unwrap().params == params_spec(payload),
        read_step(data, pos, base).1 == pos + 8 + payload.len(),
{
    let f = frame_bytes(rebased, delta, format_id, payload);
    lemma_frame_len(rebased, delta, format_id, payload);
    lemma_pow256_facts();
    lemma_le_round_trip(delta as nat, 2);
    lemma_le_round_trip(format_id as nat, 2);
    lemma_le_round_trip(payload.len(), 2);
    assert(data[pos] == f[0]);
    assert(data.subrange(pos + 2, pos + 4) =~= f.subrange(2, 4));
    assert(f.subrange(2, 4) =~= le_encode(delta as nat, 2));
    assert(data.subrange(pos + 4, pos + 6) =~= f.subrange(4, 6));
    assert(f.subrange(4, 6) =~= le_encode(format_id as nat, 2));
    assert(data.subrange(pos + 6, pos + 8) =~= f.subrange(6, 8));
    assert(f.subrange(6, 8) =~= le_encode(payload.len(), 2));
    assert(data.subrange(pos + 8, pos + 8 + payload.len()) =~= f.subrange(8, f.len() as int));
    assert(f.subrange(8, f.len() as int) =~= payload);
}

/// The frames of a run of records read back, one entry per record, with the
/// records' format IDs and payloads in order.
pub proof fn lemma_decode_frames(data: Seq<u8>, pos: int, base: Option<u64>, clock: Option<u64>, ops: Seq<AppendOp>)
    requires
        0 <= pos,
        pos + run_frames(clock, ops).len() <= data.len(),
        data.subrange(pos, pos + run_frames(clock, ops).len()) == run_frames(clock, ops),
        forall|i: int|
            0 <= i < ops.len() ==> (#[trigger] ops[i]).format_id != 0 && ops[i].payload.len()
                < 0x1_0000,
    ensures
        decode_n(data, pos, base, ops.len()).len() == ops.len(),
        forall|i: int|
            0 <= i < ops.len() ==> (#[trigger] decode_n(data, pos, base, ops.len())[i]).format_id
                == ops[i].format_id && decode_n(data, pos, base, ops.len())[i].payload
                == ops[i].payload && decode_n(data, pos, base, ops.len())[i].params == params_spec(
                ops[i].payload,
            ),
    decreases ops.len(),
{
    if ops.len() > 0 {
        let op = ops[0];
        let rest = ops.drop_first();
        let (c, delta, rebased) = relative_step(clock, op.now);
        let f = frame_bytes(rebased, delta, op.format_id, op.payload);
        let fr = run_frames(c, rest);
        lemma_frame_len(rebased, delta, op.format_id, op.payload);
        assert(run_frames(clock, ops) == f + fr);
        assert(data.subrange(pos, pos + f.len()) =~= (f + fr).subrange(0, f.len() as int));
        assert((f + fr).subrange(0, f.len() as int) =~= f);
        lemma_read_frame(data, pos, base, rebased, delta, op.format_id, op.payload);
        let (e, p, b) = read_step(data, pos, base);
        assert(data.subrange(p, p + fr.len()) =~= (f + fr).subrange(f.len() as int, (f + fr).len() as int));
        assert((f + fr).subrange(f.len() as int, (f + fr).len() as int) =~= fr);
        assert forall|i: int| 0 <= i < rest.len() implies (#[trigger] rest[i]).format_id != 0
            && rest[i].payload.len() < 0x1_0000 by {
            assert(rest[i] == ops[i + 1]);
        }
        lemma_decode_frames(data, p, b, c, rest);
        let d = decode_n(data, pos, base, ops.len());
        assert(d == seq![e.unwrap()] + decode_n(data, p, b, rest.len()));
        assert forall|i: int| 0 <= i < ops.len() implies (#[trigger] d[i]).format_id
            == ops[i].format_id && d[i].payload == ops[i].payload && d[i].params == params_spec(
            ops[i].payload,
        ) by {
            if i > 0 {
                assert(d[i] == decode_n(data, p, b, rest.len())[i - 1]);
                assert(ops[i] == rest[i - 1]);
            }
        }
    }
}

/// Records that fit all survive hand-offs: the frames of the handed-off
/// images followed by the pending frames hold one frame per record, which
/// read back with the records' format IDs, payloads and arguments, in order.
/// With a payload built by the encoder, the arguments are those of
/// `lemma_payload_round_trip`.
pub proof fn lemma_appends_decode(v: LoggerView, cap: nat, ops: Seq<AppendOp>, base: Option<u64>)
    requires
        forall|i: int|
            0 <= i < ops.len() ==> (#[trigger] ops[i]).format_id != 0 && !record_too_large(
                cap,
                ops[i].payload.len(),
            ),
    ensures
        ({
            let w = run_appends(v, cap, ops);
            let d = decode_n(stream(w), stream(v).len() as int, base, ops.len());
            &&& stream(v).is_prefix_of(stream(w))
            &&& d.len() == ops.len()
            &&& forall|i: int|
                0 <= i < ops.len() ==> (#[trigger] d[i]).format_id == ops[i].format_id
                    && d[i].payload == ops[i].payload && d[i].params == params_spec(
                    ops[i].payload,
                )
        }),
{
    let w = run_appends(v, cap, ops);
    lemma_run_stream(v, cap, ops);
    let fr = run_frames(v.clock, ops);
    assert(stream(w).subrange(stream(v).len() as int, stream(v).len() + fr.len() as int) =~= fr);
    assert(stream(v) =~= stream(w).subrange(0, stream(v).len() as int));
    lemma_decode_frames(stream(w), stream(v).len() as int, base, v.clock, ops);
}

/// Encoder, producer and decoder together: records whose payloads the encoder
/// built read back, in order, with their format IDs and with exactly the
/// classification of their arguments; representable arguments come back byte
/// for byte.
pub proof fn lemma_records_round_trip(
    v: LoggerView,
    cap: nat,
    ops: Seq<AppendOp>,
    args: Seq<Seq<Seq<u8>>>,
    base: Option<u64>,
)
    requires
        ops.len() == args.len(),
        forall|i: int|
            0 <= i < ops.len() ==> {
                &&& (#[trigger] ops[i]).format_id != 0
                &&& payload_fits(args[i])
                &&& ops[i].payload == payload_spec(args[i])
                &&& !record_too_large(cap, ops[i].payload.len())
            },
    ensures
        ({
            let d = decode_n(
                stream(run_appends(v, cap, ops)),
                stream(v).len() as int,
                base,
                ops.len(),
            );
            &&& d.len() == ops.len()
            &&& forall|i: int|
                0 <= i < ops.len() ==> {
                    &&& (#[trigger] d[i]).format_id == ops[i].format_id
                    &&& d[i].params == args[i].map_values(|a: Seq<u8>| classify_spec(a))
                    &&& (forall|j: int|
                        0 <= j < args[i].len() ==> representable(#[trigger] args[i][j]))
                        ==> d[i].params.map_values(|x: ValueSpec| value_bytes(x)) == args[i]
                }
        }),
{
    lemma_appends_decode(v, cap, ops, base);
    let d = decode_n(stream(run_appends(v, cap, ops)), stream(v).len() as int, base, ops.len());
    assert forall|i: int| 0 <= i < ops.len() implies {
        &&& (#[trigger] d[i]).format_id == ops[i].format_id
        &&& d[i].params == args[i].map_values(|a: Seq<u8>| classify_spec(a))
        &&& (forall|j: int| 0 <= j < args[i].len() ==> representable(#[trigger] args[i][j]))
            ==> d[i].params.map_values(|x: ValueSpec| value_bytes(x)) == args[i]
    } by {
        let op = ops[i];
        assert(payload_fits(args[i]) && op.payload == payload_spec(args[i]));
        lemma_payload_round_trip(args[i]);
    }
}

} // verus!
