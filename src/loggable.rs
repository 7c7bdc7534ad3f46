//! Values serialized by their display text: a 2-byte little-endian length,
//! then the text's UTF-8 bytes.

use vstd::prelude::*;
use vstd::utf8::encode_utf8;
use vstd::string::StringSliceAdditionalSpecFns;
use crate::codec::{le_encode, lemma_pow256_facts};

verus! {

/// The decimal digits of `n`, most significant first.
pub open spec fn digits_of(n: nat) -> Seq<char>
    decreases n,
{
    if n < 10 {
        seq![seq!['0', '1', '2', '3', '4', '5', '6', '7', '8', '9'][n as int]]
    } else {
        digits_of(n / 10).push(seq!['0', '1', '2', '3', '4', '5', '6', '7', '8', '9'][(n
            % 10) as int])
    }
}

/// The decimal text of `v`, with a leading `-` when it is negative.
pub open spec fn decimal(v: int) -> Seq<char> {
    if v < 0 {
        seq!['-'] + digits_of((-v) as nat)
    } else {
        digits_of(v as nat)
    }
}

/// The serialized form of a text: its length, then its bytes.
pub open spec fn serialized(text: Seq<u8>) -> Seq<u8> {
    le_encode(text.len(), 2) + text
}

/// A value that can be written into a byte buffer by its display text.
pub trait Loggable {
    /// The UTF-8 bytes of the value's display text.
    spec fn log_text(&self) -> Seq<u8>;

    /// Writes the text's length and then the text at the start of `buf`, and
    /// returns the number of bytes written.
    fn serialize(&self, buf: &mut [u8]) -> (r: usize)
        requires
            self.log_text().len() <= 0xffff,
            2 + self.log_text().len() <= old(buf)@.len(),
        ensures
            r == 2 + self.log_text().len(),
            final(buf)@ == serialized(self.log_text()) + old(buf)@.subrange(
                r as int,
                old(buf)@.len() as int,
            ),
    ;
}

/// Writes `text` with its length in front at the start of `buf`.
pub fn serialize_text(text: &[u8], buf: &mut [u8]) -> (r: usize)
    requires
        text@.len() <= 0xffff,
        2 + text@.len() <= old(buf)@.len(),
    ensures
        r == 2 + text@.len(),
        final(buf)@ == serialized(text@) + old(buf)@.subrange(r as int, old(buf)@.len() as int),
{
    let n = text.len();
    let blen = buf.len();
    proof {
        lemma_pow256_facts();
        reveal_with_fuel(le_encode, 3);
    }
    buf[0] = (n % 256) as u8;
    buf[1] = (n / 256) as u8;
    let ghost head = buf@.subrange(0, 2);
    assert(head =~= le_encode(n as nat, 2));
    let mut k: usize = 0;
    while k < n
        invariant
            n == text@.len(),
            k <= n,
            2 + n <= old(buf)@.len(),
            buf@.len() == old(buf)@.len(),
            blen == buf@.len(),
            buf@ == head + text@.subrange(0, k as int) + old(buf)@.subrange(
                2 + k,
                old(buf)@.len() as int,
            ),
        decreases n - k,
    {
        buf[2 + k] = text[k];
        assert(buf@ =~= head + text@.subrange(0, k + 1) + old(buf)@.subrange(
            2 + k + 1,
            old(buf)@.len() as int,
        ));
        k = k + 1;
    }
    assert(text@.subrange(0, n as int) =~= text@);
    2 + n
}

/// Relies on the `Display` impl of `i32`, through `ToString::to_string`: the
/// decimal digits, with `-` in front of a negative value.
#[verifier::external_body]
fn i32_text(v: i32) -> (r: String)
    ensures
        r@ == decimal(v as int),
{
    v.to_string()
}

impl Loggable for i32 {
    open spec fn log_text(&self) -> Seq<u8> {
        encode_utf8(decimal(*self as int))
    }

    fn serialize(&self, buf: &mut [u8]) -> (r: usize) {
        let s = i32_text(*self);
        serialize_text(s.as_str().as_bytes(), buf)
    }
}

impl Loggable for bool {
    open spec fn log_text(&self) -> Seq<u8> {
        if *self {
            encode_utf8(seq!['t', 'r', 'u', 'e'])
        } else {
            encode_utf8(seq!['f', 'a', 'l', 's', 'e'])
        }
    }

    fn serialize(&self, buf: &mut [u8]) -> (r: usize) {
        let s = if *self {
            "true"
        } else {
            "false"
        };
        proof {
            reveal_strlit("true");
            reveal_strlit("false");
            assert("true"@ =~= seq!['t', 'r', 'u', 'e']);
            assert("false"@ =~= seq!['f', 'a', 'l', 's', 'e']);
        }
        serialize_text(s.as_bytes(), buf)
    }
}

impl<'a> Loggable for &'a str {
    open spec fn log_text(&self) -> Seq<u8> {
        (*self).spec_bytes()
    }

    fn serialize(&self, buf: &mut [u8]) -> (r: usize) {
        serialize_text(self.as_bytes(), buf)
    }
}

impl Loggable for String {
    open spec fn log_text(&self) -> Seq<u8> {
        encode_utf8(self@)
    }

    fn serialize(&self, buf: &mut [u8]) -> (r: usize) {
        serialize_text(self.as_str().as_bytes(), buf)
    }
}

} // verus!
