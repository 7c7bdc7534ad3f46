//! Format strings: checking their braces, and rendering a record by
//! substituting its arguments for the `{}` placeholders.

use vstd::prelude::*;
use vstd::string::{StrSliceExecFns, StringExecFns, StringSliceAdditionalSpecFns};

verus! {

/// A format string together with its ID.
#[derive(Debug)]
pub struct FormatInfo {
    pub format_string: &'static str,
    pub format_id: u16,
}

/// The brace check from byte `i` on, with `in_brace` telling whether a `{`
/// is open: `{{` and `}}` are escapes, a `{` may not open inside another, a
/// `}` must close one, and none may be left open at the end.
pub open spec fn braces_ok(b: Seq<u8>, i: int, in_brace: bool) -> bool
    decreases b.len() - i,
{
    if i < 0 || i >= b.len() {
        !in_brace
    } else if b[i] == 0x7b {
        if i + 1 < b.len() && b[i + 1] == 0x7b {
            braces_ok(b, i + 2, in_brace)
        } else if in_brace {
            false
        } else {
            braces_ok(b, i + 1, true)
        }
    } else if b[i] == 0x7d {
        if i + 1 < b.len() && b[i + 1] == 0x7d {
            braces_ok(b, i + 2, in_brace)
        } else if !in_brace {
            false
        } else {
            braces_ok(b, i + 1, false)
        }
    } else {
        braces_ok(b, i + 1, in_brace)
    }
}

/// Whether the braces of a format string are balanced.
pub fn validate_format(s: &str) -> (r: bool)
    ensures
        r == braces_ok(s.spec_bytes(), 0, false),
{
    let bytes = s.as_bytes();
    let n = bytes.len();
    let mut i: usize = 0;
    let mut in_brace = false;
    while i < n
        invariant
            n == bytes@.len(),
            bytes@ == s.spec_bytes(),
            i <= n + 1,
            braces_ok(bytes@, i as int, in_brace) == braces_ok(bytes@, 0, false),
        decreases n + 1 - i,
    {
        let c = bytes[i];
        if c == 0x7b {
            if i + 1 < n && bytes[i + 1] == 0x7b {
                i = i + 2;
                continue;
            }
            if in_brace {
                return false;
            }
            in_brace = true;
        } else if c == 0x7d {
            if i + 1 < n && bytes[i + 1] == 0x7d {
                i = i + 2;
                continue;
            }
            if !in_brace {
                return false;
            }
            in_brace = false;
        }
        i = i + 1;
    }
    !in_brace
}

impl FormatInfo {
    /// The format string with its ID, when its braces are balanced.
    pub fn new(format_string: &'static str, format_id: u16) -> (r: Option<FormatInfo>)
        ensures
            r is Some <==> braces_ok(format_string.spec_bytes(), 0, false),
            r is Some ==> r.unwrap().format_string@ == format_string@ && r.unwrap().format_id
                == format_id,
    {
        if validate_format(format_string) {
            Some(FormatInfo { format_string, format_id })
        } else {
            None
        }
    }
}

/// What a missing argument renders as.
pub open spec fn missing_text() -> Seq<char> {
    seq!['{', 'M', 'I', 'S', 'S', 'I', 'N', 'G', '}']
}

/// The format string `f` with each `{}` replaced, in order, by the next of
/// `args` starting at the `k`-th, or by the missing marker once they run out.
pub open spec fn render_spec(f: Seq<char>, args: Seq<Seq<char>>, k: nat) -> Seq<char>
    decreases f.len(),
{
    if f.len() == 0 {
        Seq::empty()
    } else if f.len() >= 2 && f[0] == '{' && f[1] == '}' {
        (if k < args.len() {
            args[k as int]
        } else {
            missing_text()
        }) + render_spec(f.subrange(2, f.len() as int), args, k + 1)
    } else {
        seq![f[0]] + render_spec(f.drop_first(), args, k)
    }
}

/// Renders a record: its format string with the arguments' texts substituted
/// for the `{}` placeholders.
pub fn render_format(fmt: &str, args: &Vec<String>) -> (r: String)
    ensures
        r@ == render_spec(fmt@, args@.map_values(|a: String| a@), 0),
{
    let ghost texts = args@.map_values(|a: String| a@);
    let n = fmt.unicode_len();
    let mut out = String::new();
    let mut i: usize = 0;
    let mut k: usize = 0;
    let missing = "{MISSING}";
    proof {
        reveal_strlit("{MISSING}");
        assert(missing@ =~= missing_text());
        assert(fmt@.subrange(0, n as int) =~= fmt@);
        assert(out@ + render_spec(fmt@, texts, 0) =~= render_spec(fmt@, texts, 0));
    }
    while i < n
        invariant
            n == fmt@.len(),
            i <= n,
            k <= i,
            texts == args@.map_values(|a: String| a@),
            missing@ == missing_text(),
            out@ + render_spec(fmt@.subrange(i as int, n as int), texts, k as nat) == render_spec(
                fmt@,
                texts,
                0,
            ),
        decreases n - i,
    {
        let ghost rest = fmt@.subrange(i as int, n as int);
        let ghost before = out@;
        if i + 1 < n && fmt.get_char(i) == '{' && fmt.get_char(i + 1) == '}' {
            if k < args.len() {
                out.append(args[k].as_str());
            } else {
                out.append(missing);
            }
            assert(rest.subrange(2, rest.len() as int) =~= fmt@.subrange(i + 2, n as int));
            assert(out@ + render_spec(fmt@.subrange(i + 2, n as int), texts, (k + 1) as nat)
                =~= before + render_spec(rest, texts, k as nat));
            i = i + 2;
            k = k + 1;
        } else {
            let piece = fmt.substring_char(i, i + 1);
            out.append(piece);
            assert(rest.drop_first() =~= fmt@.subrange(i + 1, n as int));
            assert(piece@ =~= seq![rest[0]]);
            assert(out@ + render_spec(fmt@.subrange(i + 1, n as int), texts, k as nat)
                =~= before + render_spec(rest, texts, k as nat));
            i = i + 1;
        }
    }
    assert(fmt@.subrange(n as int, n as int) =~= Seq::<char>::empty());
    assert(out@ =~= out@ + render_spec(fmt@.subrange(n as int, n as int), texts, k as nat));
    assert(fmt@.subrange(0, n as int) =~= fmt@);
    out
}

} // verus!
