//! The record encoder: argument payloads and record frames.

use vstd::prelude::*;
use crate::codec::{le_encode, lemma_le_encode_len, write_le};

verus! {

/// Largest payload of one record, in bytes.
pub const MAX_PAYLOAD: usize = 1024;

/// Largest number of arguments of one record.
pub const MAX_ARGS: usize = 255;

/// Errors surfaced to callers of the producer.
#[derive(Debug, Clone, Copy, PartialEq, Eq, Structural)]
pub enum LogError {
    /// The payload is over `MAX_PAYLOAD` bytes or the frame cannot fit in an
    /// empty buffer.
    RecordTooLarge,
}

/// One argument on the wire: its length as a 4-byte integer, then its bytes.
pub open spec fn arg_bytes(a: Seq<u8>) -> Seq<u8> {
    le_encode(a.len(), 4) + a
}

/// The arguments on the wire, one after another.
pub open spec fn args_bytes(args: Seq<Seq<u8>>) -> Seq<u8>
    decreases args.len(),
{
    if args.len() == 0 {
        Seq::empty()
    } else {
        arg_bytes(args[0]) + args_bytes(args.drop_first())
    }
}

/// A payload: the argument count, then the arguments.
pub open spec fn payload_spec(args: Seq<Seq<u8>>) -> Seq<u8> {
    seq![args.len() as u8] + args_bytes(args)
}

/// Whether the arguments can be encoded: at most `MAX_ARGS` of them, in at
/// most `MAX_PAYLOAD` bytes.
pub open spec fn payload_fits(args: Seq<Seq<u8>>) -> bool {
    args.len() <= MAX_ARGS && 1 + args_bytes(args).len() <= MAX_PAYLOAD
}

pub proof fn lemma_args_bytes_push(args: Seq<Seq<u8>>, a: Seq<u8>)
    ensures
        args_bytes(args.push(a)) == args_bytes(args) + arg_bytes(a),
    decreases args.len(),
{
    if args.len() == 0 {
        assert(args.push(a).drop_first() =~= Seq::<Seq<u8>>::empty());
        assert(args_bytes(args.push(a).drop_first()) == Seq::<u8>::empty());
        assert(args_bytes(args.push(a)) =~= arg_bytes(a));
    } else {
        lemma_args_bytes_push(args.drop_first(), a);
        assert(args.push(a).drop_first() =~= args.drop_first().push(a));
        assert(args_bytes(args.push(a)) =~= args_bytes(args) + arg_bytes(a));
    }
}

/// Encodes the arguments of one record into a payload; each argument is the
/// raw bytes of one value.
pub fn encode_payload(args: &Vec<Vec<u8>>) -> (r: Result<Vec<u8>, LogError>)
    ensures
        r is Ok <==> payload_fits(args@.map_values(|a: Vec<u8>| a@)),
        r is Ok ==> r.unwrap()@ == payload_spec(args@.map_values(|a: Vec<u8>| a@)),
        r is Err ==> r == Err::<Vec<u8>, LogError>(LogError::RecordTooLarge),
{
    let ghost all = args@.map_values(|a: Vec<u8>| a@);
    let n = args.len();
    if n > MAX_ARGS {
        return Err(LogError::RecordTooLarge);
    }
    let mut out: Vec<u8> = Vec::new();
    out.push(n as u8);
    let mut i: usize = 0;
    assert(all.subrange(0, 0) =~= Seq::<Seq<u8>>::empty());
    while i < n
        invariant
            n == args@.len(),
            n <= MAX_ARGS,
            all == args@.map_values(|a: Vec<u8>| a@),
            i <= n,
            out@ == seq![n as u8] + args_bytes(all.subrange(0, i as int)),
            out@.len() <= MAX_PAYLOAD,
        decreases n - i,
    {
        let a = &args[i];
        let len = a.len();
        if len > MAX_PAYLOAD - out.len() || MAX_PAYLOAD - out.len() - len < 4 {
            proof {
                assert(all[i as int] == a@);
                assert(all.subrange(0, i + 1) =~= all.subrange(0, i as int).push(a@));
                lemma_args_bytes_push(all.subrange(0, i as int), a@);
                lemma_le_encode_len(len as nat, 4);
                lemma_args_bytes_fits(all, i as int);
            }
            return Err(LogError::RecordTooLarge);
        }
        let ghost before = out@;
        write_le(&mut out, len as u64, 4);
        let mut k: usize = 0;
        while k < len
            invariant
                k <= len,
                len == a@.len(),
                out@ == before + le_encode(len as nat, 4) + a@.subrange(0, k as int),
            decreases len - k,
        {
            out.push(a[k]);
            assert(a@.subrange(0, k + 1) =~= a@.subrange(0, k as int).push(a@[k as int]));
            k = k + 1;
        }
        proof {
            assert(a@.subrange(0, len as int) =~= a@);
            assert(all[i as int] == a@);
            assert(all.subrange(0, i + 1) =~= all.subrange(0, i as int).push(a@));
            lemma_args_bytes_push(all.subrange(0, i as int), a@);
            lemma_le_encode_len(len as nat, 4);
        }
        i = i + 1;
    }
    assert(all.subrange(0, n as int) =~= all);
    Ok(out)
}

/// The bytes of a prefix of the arguments are a prefix of the bytes of all of
/// them, so once a prefix with one more argument is over the limit, so are all.
pub proof fn lemma_args_bytes_fits(all: Seq<Seq<u8>>, i: int)
    requires
        0 <= i < all.len(),
    ensures
        args_bytes(all.subrange(0, i + 1)).len() <= args_bytes(all).len(),
    decreases all.len() - i,
{
    if i + 1 < all.len() {
        lemma_args_bytes_fits(all, i + 1);
        assert(all.subrange(0, i + 2) =~= all.subrange(0, i + 1).push(all[i + 1]));
        lemma_args_bytes_push(all.subrange(0, i + 1), all[i + 1]);
    } else {
        assert(all.subrange(0, i + 1) =~= all);
    }
}

} // verus!
