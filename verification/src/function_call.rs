//! The invoke-call argument format: a version byte, a function marker,
//! the call's name, and a counted list of typed arguments, all in
//! big-endian framing.

use vstd::prelude::*;

use crate::models::DataEntryTypeValue;
use crate::utils::base64_of;

verus! {

/// A decoded invoke call: its function name and arguments.
pub struct FunctionCall {
    pub name: String,
    pub args: Vec<DataEntryTypeValue>,
}

/// Mathematical model of one decoded argument.
pub ghost enum ArgM {
    Int(i64),
    Bin(Seq<char>),
    Str(Seq<char>),
    Bool(bool),
}

/// Whether a decoded argument value carries what its model says.
pub open spec fn arg_matches(a: DataEntryTypeValue, m: ArgM) -> bool {
    match (a, m) {
        (DataEntryTypeValue::Integer(i), ArgM::Int(j)) => i == j,
        (DataEntryTypeValue::Binary(s), ArgM::Bin(t)) => s@ == t,
        (DataEntryTypeValue::StringVal(s), ArgM::Str(t)) => s@ == t,
        (DataEntryTypeValue::Boolean(x), ArgM::Bool(y)) => x == y,
        _ => false,
    }
}

/// What UTF-8 decoding makes of given bytes: their text, or nothing when
/// they are not valid UTF-8; the outcome depends on the bytes alone.
pub uninterp spec fn utf8_decode(b: Seq<u8>) -> Option<Seq<char>>;

/// Relies on String::from_utf8: the bytes' text when they decode.
#[verifier::external_body]
fn utf8_to_string(b: &[u8]) -> (r: Option<String>)
    ensures
        match r {
            Some(s) => utf8_decode(b@) == Some(s@),
            None => utf8_decode(b@) is None,
        },
{
    String::from_utf8(b.to_vec()).ok()
}

/// A big-endian 32-bit read.
pub open spec fn be_u32(b: Seq<u8>, i: int) -> int {
    b[i] * 0x100_0000 + b[i + 1] * 0x1_0000 + b[i + 2] * 0x100 + b[i + 3]
}

/// A big-endian 64-bit read.
pub open spec fn be_u64(b: Seq<u8>, i: int) -> int {
    b[i] * 0x100_0000_0000_0000 + b[i + 1] * 0x1_0000_0000_0000 + b[i + 2] * 0x100_0000_0000 + b[i
        + 3] * 0x1_0000_0000 + b[i + 4] * 0x100_0000 + b[i + 5] * 0x1_0000 + b[i + 6] * 0x100 + b[i
        + 7]
}

/// One argument parsed at `i`: its model and the position after it.
/// Unknown and unsupported type tags refuse the whole call.
pub open spec fn spec_parse_arg(b: Seq<u8>, i: int) -> Option<(ArgM, int)> {
    if i >= b.len() {
        None
    } else if b[i] == 0 {
        if i + 9 <= b.len() {
            Some((ArgM::Int((be_u64(b, i + 1) as u64) as i64), i + 9))
        } else {
            None
        }
    } else if b[i] == 1 {
        if i + 5 <= b.len() && i + 5 + be_u32(b, i + 1) <= b.len() {
            Some(
                (
                    ArgM::Bin("base64:"@ + base64_of(b.subrange(i + 5, i + 5 + be_u32(b, i + 1)))),
                    i + 5 + be_u32(b, i + 1),
                ),
            )
        } else {
            None
        }
    } else if b[i] == 2 {
        if i + 5 <= b.len() && i + 5 + be_u32(b, i + 1) <= b.len() {
            match utf8_decode(b.subrange(i + 5, i + 5 + be_u32(b, i + 1))) {
                Some(s) => Some((ArgM::Str(s), i + 5 + be_u32(b, i + 1))),
                None => None,
            }
        } else {
            None
        }
    } else if b[i] == 6 {
        Some((ArgM::Bool(true), i + 1))
    } else if b[i] == 7 {
        Some((ArgM::Bool(false), i + 1))
    } else {
        None
    }
}

/// `count` arguments parsed from `i` on.
pub open spec fn spec_parse_args(b: Seq<u8>, i: int, count: nat) -> Option<(Seq<ArgM>, int)>
    decreases count,
{
    if count == 0 {
        Some((Seq::<ArgM>::empty(), i))
    } else {
        match spec_parse_arg(b, i) {
            Some((a, j)) => match spec_parse_args(b, j, (count - 1) as nat) {
                Some((rest, end)) => Some((seq![a] + rest, end)),
                None => None,
            },
            None => None,
        }
    }
}

/// A whole call parsed from the start: a leading version byte, the two
/// marker bytes, the name's length and bytes, then the counted
/// arguments.  Trailing bytes after the arguments are tolerated.
pub open spec fn spec_parse_call(b: Seq<u8>) -> Option<(Seq<char>, Seq<ArgM>)> {
    if b.len() >= 11 && b[1] == 9 && b[2] == 1 && 11 + be_u32(b, 3) <= b.len() {
        let nl = be_u32(b, 3);
        match utf8_decode(b.subrange(7, 7 + nl)) {
            Some(name) => match spec_parse_args(b, 11 + nl, be_u32(b, 7 + nl) as nat) {
                Some((args, _end)) => Some((name, args)),
                None => None,
            },
            None => None,
        }
    } else {
        None
    }
}

/// Reads four big-endian bytes at `i`.
fn read_be_u32(input: &[u8], i: usize) -> (r: u32)
    requires
        i + 4 <= input@.len(),
    ensures
        r as int == be_u32(input@, i as int),
{
    let n = input.len();
    let b0 = *vstd::slice::slice_index_get(input, i);
    let b1 = *vstd::slice::slice_index_get(input, i + 1);
    let b2 = *vstd::slice::slice_index_get(input, i + 2);
    let b3 = *vstd::slice::slice_index_get(input, i + 3);
    (b0 as u32) * 0x100_0000 + (b1 as u32) * 0x1_0000 + (b2 as u32) * 0x100 + (b3 as u32)
}

/// Reads eight big-endian bytes at `i`.
fn read_be_u64(input: &[u8], i: usize) -> (r: u64)
    requires
        i + 8 <= input@.len(),
    ensures
        r as int == be_u64(input@, i as int),
{
    let n = input.len();
    let b0 = *vstd::slice::slice_index_get(input, i);
    let b1 = *vstd::slice::slice_index_get(input, i + 1);
    let b2 = *vstd::slice::slice_index_get(input, i + 2);
    let b3 = *vstd::slice::slice_index_get(input, i + 3);
    let b4 = *vstd::slice::slice_index_get(input, i + 4);
    let b5 = *vstd::slice::slice_index_get(input, i + 5);
    let b6 = *vstd::slice::slice_index_get(input, i + 6);
    let b7 = *vstd::slice::slice_index_get(input, i + 7);
    (b0 as u64) * 0x100_0000_0000_0000 + (b1 as u64) * 0x1_0000_0000_0000 + (b2 as u64)
        * 0x100_0000_0000 + (b3 as u64) * 0x1_0000_0000 + (b4 as u64) * 0x100_0000 + (b5 as u64)
        * 0x1_0000 + (b6 as u64) * 0x100 + (b7 as u64)
}

/// One parsed argument and the position after it.
fn parse_arg(input: &[u8], i: usize) -> (r: Option<(DataEntryTypeValue, usize)>)
    requires
        i <= input@.len(),
    ensures
        match r {
            Some((a, j)) => (match spec_parse_arg(input@, i as int) {
                Some((m, jj)) => arg_matches(a, m) && j as int == jj && i < j <= input@.len(),
                None => false,
            }),
            None => spec_parse_arg(input@, i as int) is None,
        },
{
    if i >= input.len() {
        return None;
    }
    let tag = *vstd::slice::slice_index_get(input, i);
    if tag == 0 {
        if input.len() - i >= 9 {
            let v = read_be_u64(input, i + 1);
            Some((DataEntryTypeValue::Integer(#[verifier::truncate] (v as i64)), i + 9))
        } else {
            None
        }
    } else if tag == 1 {
        if input.len() - i >= 5 {
            let len = read_be_u32(input, i + 1) as usize;
            if len <= input.len() - i - 5 {
                let sub = vstd::slice::slice_subrange(input, i + 5, i + 5 + len);
                let enc = crate::utils::encode_base64(sub);
                let text = String::from_str("base64:").concat(enc.as_str());
                proof {
                    assert(text@ == "base64:"@ + base64_of(input@.subrange(
                        i + 5,
                        i + 5 + be_u32(input@, i + 1),
                    )));
                }
                Some((DataEntryTypeValue::Binary(text), i + 5 + len))
            } else {
                None
            }
        } else {
            None
        }
    } else if tag == 2 {
        if input.len() - i >= 5 {
            let len = read_be_u32(input, i + 1) as usize;
            if len <= input.len() - i - 5 {
                let sub = vstd::slice::slice_subrange(input, i + 5, i + 5 + len);
                match utf8_to_string(sub) {
                    Some(s) => Some((DataEntryTypeValue::StringVal(s), i + 5 + len)),
                    None => None,
                }
            } else {
                None
            }
        } else {
            None
        }
    } else if tag == 6 {
        Some((DataEntryTypeValue::Boolean(true), i + 1))
    } else if tag == 7 {
        Some((DataEntryTypeValue::Boolean(false), i + 1))
    } else {
        None
    }
}

impl FunctionCall {
    /// Decodes a whole invoke call from its raw bytes.
    pub fn from_raw_bytes(bytes: &[u8]) -> (r: Result<FunctionCall, String>)
        ensures
            match r {
                Ok(fc) => (match spec_parse_call(bytes@) {
                    Some((name, args)) => fc.name@ == name && fc.args@.len() == args.len() && (
                    forall|q: int|
                        0 <= q < args.len() ==> arg_matches(#[trigger] fc.args@[q], args[q])),
                    None => false,
                }),
                Err(_) => spec_parse_call(bytes@) is None,
            },
    {
        let ghost bv = bytes@;
        if bytes.len() < 11 {
            return Err(String::from_str("invoke call bytes are too short"));
        }
        let m1 = *vstd::slice::slice_index_get(bytes, 1);
        let m2 = *vstd::slice::slice_index_get(bytes, 2);
        if m1 != 9 || m2 != 1 {
            return Err(String::from_str("not a serialized function call"));
        }
        let nl = read_be_u32(bytes, 3) as usize;
        if nl > bytes.len() - 11 {
            return Err(String::from_str("function name runs past the input"));
        }
        let name_bytes = vstd::slice::slice_subrange(bytes, 7, 7 + nl);
        let name = match utf8_to_string(name_bytes) {
            Some(s) => s,
            None => {
                return Err(String::from_str("function name is not text"));
            },
        };
        let argc = read_be_u32(bytes, 7 + nl);
        let ghost argcn = (be_u32(bv, 7 + nl as int)) as nat;
        let mut args: Vec<DataEntryTypeValue> = Vec::new();
        let mut pos: usize = 11 + nl;
        let mut k: u32 = 0;
        let ghost mut collected: Seq<ArgM> = Seq::empty();
        proof {
            match spec_parse_args(bv, pos as int, argcn) {
                Some((rest, end)) => {
                    assert(Seq::<ArgM>::empty() + rest =~= rest);
                },
                None => {},
            }
        }
        while k < argc
            invariant
                bv == bytes@,
                argcn == be_u32(bv, 7 + nl as int),
                argc as nat == argcn,
                0 <= k <= argc,
                pos <= bv.len(),
                args@.len() == collected.len(),
                collected.len() == k as nat,
                forall|q: int|
                    0 <= q < collected.len() ==> arg_matches(#[trigger] args@[q], collected[q]),
                spec_parse_args(bv, 11 + nl as int, argcn) == (match spec_parse_args(
                    bv,
                    pos as int,
                    (argcn - k as nat) as nat,
                ) {
                    Some((rest, end)) => Some((collected + rest, end)),
                    None => None::<(Seq<ArgM>, int)>,
                }),
                spec_parse_call(bv) == (match spec_parse_args(bv, 11 + nl as int, argcn) {
                    Some((aa, _end)) => Some((name@, aa)),
                    None => None::<(Seq<char>, Seq<ArgM>)>,
                }),
            decreases argc - k,
        {
            let ghost rem = (argcn - k as nat) as nat;
            match parse_arg(bytes, pos) {
                Some((a, next)) => {
                    let ghost am = spec_parse_arg(bv, pos as int)->Some_0.0;
                    let ghost c0 = collected;
                    args.push(a);
                    proof {
                        collected = c0.push(am);
                        assert(spec_parse_args(bv, pos as int, rem) == (
                        match spec_parse_args(bv, next as int, (rem - 1) as nat) {
                            Some((rest, end)) => Some((seq![am] + rest, end)),
                            None => None::<(Seq<ArgM>, int)>,
                        }));
                        match spec_parse_args(bv, next as int, (rem - 1) as nat) {
                            Some((rest, end)) => {
                                assert(c0 + (seq![am] + rest) =~= (c0.push(am)) + rest);
                            },
                            None => {},
                        }
                    }
                    pos = next;
                },
                None => {
                    proof {
                        assert(spec_parse_args(bv, pos as int, rem) is None);
                        assert(spec_parse_args(bv, 11 + nl as int, argcn) is None);
                        assert(spec_parse_call(bv) is None);
                    }
                    return Err(String::from_str("malformed call argument"));
                },
            }
            k += 1;
        }
        proof {
            assert((argcn - k as nat) as nat == 0);
            assert(spec_parse_args(bv, pos as int, 0) == Some((Seq::<ArgM>::empty(), pos as int)));
            assert(collected + Seq::<ArgM>::empty() =~= collected);
            assert(spec_parse_args(bv, 11 + nl as int, argcn) == Some((collected, pos as int)));
            assert(spec_parse_call(bv) == Some((name@, collected)));
        }
        Ok(FunctionCall { name, args })
    }
}

} // verus!
