//! Identifiers for declared functions and data objects.
//!
//! `FuncId` and `DataId` are opaque dense non-negative integers assigned at
//! declaration time.  The two namespaces are distinct, and an id, once
//! issued, is never reused.

use vstd::prelude::*;
use vstd::string::StringSliceAdditionalSpecFns;

verus! {

/// An ASCII decimal digit.
pub open spec fn spec_is_digit(b: u8) -> bool {
    0x30 <= b <= 0x39
}

/// The value of a big-endian decimal digit string.
pub open spec fn spec_digits_val(s: Seq<u8>) -> int
    decreases s.len(),
{
    if s.len() == 0 {
        0
    } else {
        spec_digits_val(s.drop_last()) * 10 + (s.last() - 0x30)
    }
}

/// A longer digit string never has a smaller value.
pub proof fn lemma_digits_val_prefix(s: Seq<u8>, i: int)
    requires
        0 <= i <= s.len(),
        forall|k: int| 0 <= k < s.len() ==> spec_is_digit(#[trigger] s[k]),
    ensures
        spec_digits_val(s) >= spec_digits_val(s.take(i)),
        spec_digits_val(s) >= 0,
    decreases s.len(),
{
    if s.len() > 0 {
        assert(forall|k: int| 0 <= k < s.drop_last().len() ==> spec_is_digit(
            #[trigger] s.drop_last()[k],
        ));
        if i < s.len() {
            lemma_digits_val_prefix(s.drop_last(), i);
            assert(s.drop_last().take(i) =~= s.take(i));
        } else {
            assert(s.take(i) =~= s);
            lemma_digits_val_prefix(s.drop_last(), s.len() - 1);
        }
    } else {
        assert(s.take(i) =~= s);
    }
}

/// The id string form: `func` or `data` followed by the decimal index.
pub open spec fn spec_parse_func_or_data(s: Seq<u8>) -> Option<FuncOrDataId> {
    let digits = s.skip(4);
    if s.len() < 5 {
        None
    } else if !(forall|k: int| 0 <= k < digits.len() ==> spec_is_digit(#[trigger] digits[k])) {
        None
    } else if spec_digits_val(digits) > u32::MAX {
        None
    } else if s.take(4) == seq![0x66u8, 0x75u8, 0x6eu8, 0x63u8] {
        Some(FuncOrDataId::Func(FuncId(spec_digits_val(digits) as u32)))
    } else if s.take(4) == seq![0x64u8, 0x61u8, 0x74u8, 0x61u8] {
        Some(FuncOrDataId::Data(DataId(spec_digits_val(digits) as u32)))
    } else {
        None
    }
}

/// Parses an id spelled as `func` or `data` plus a decimal index, as the
/// directive front-end writes them (`func0`, `data12`).  Anything else -
/// another prefix, a non-digit, an empty index, an index beyond `u32` -
/// yields `None`.
pub fn parse_func_or_data(s: &str) -> (r: Option<FuncOrDataId>)
    ensures
        r == spec_parse_func_or_data(s.spec_bytes()),
{
    let b: &[u8] = s.as_bytes();
    let ghost sb: Seq<u8> = s.spec_bytes();
    let n: usize = b.len();
    if n < 5 {
        return None;
    }
    let mut i: usize = 4;
    let mut val: u64 = 0;
    while i < n
        invariant
            4 <= i <= n,
            n == sb.len(),
            b@ == sb,
            sb == s.spec_bytes(),
            val == spec_digits_val(sb.skip(4).take(i - 4)),
            val <= u32::MAX,
            forall|k: int| 0 <= k < i - 4 ==> spec_is_digit(#[trigger] sb.skip(4)[k]),
        decreases n - i,
    {
        let c: u8 = b[i];
        if c < 0x30 || c > 0x39 {
            proof {
                assert(sb.skip(4)[i - 4] == c);
                assert(!spec_is_digit(sb.skip(4)[i - 4]));
                assert(spec_parse_func_or_data(sb) is None);
            }
            return None;
        }
        let d: u64 = (c - 0x30) as u64;
        proof {
            assert(sb.skip(4).take(i - 4 + 1).drop_last() =~= sb.skip(4).take(i - 4));
            assert(sb.skip(4).take(i - 4 + 1).last() == sb[i as int]);
        }
        if val > (0xffff_ffffu64 - d) / 10 {
            proof {
                let digits = sb.skip(4);
                let prefix_val = spec_digits_val(digits.take(i - 4 + 1));
                assert(prefix_val == val * 10 + d);
                vstd::arithmetic::div_mod::lemma_fundamental_div_mod(
                    0xffff_ffff - d as int,
                    10,
                );
                vstd::arithmetic::div_mod::lemma_mod_bound(0xffff_ffff - d as int, 10);
                assert(prefix_val > u32::MAX);
                if forall|k: int| 0 <= k < digits.len() ==> spec_is_digit(#[trigger] digits[k]) {
                    lemma_digits_val_prefix(digits, i - 4 + 1);
                }
            }
            return None;
        }
        val = val * 10 + d;
        i += 1;
    }
    proof {
        assert(sb.skip(4).take(n - 4) =~= sb.skip(4));
    }
    let idx: u32 = val as u32;
    if b[0] == 0x66 && b[1] == 0x75 && b[2] == 0x6e && b[3] == 0x63 {
        proof {
            assert(sb.take(4) =~= seq![0x66u8, 0x75u8, 0x6eu8, 0x63u8]);
        }
        return Some(FuncOrDataId::Func(FuncId(idx)));
    }
    if b[0] == 0x64 && b[1] == 0x61 && b[2] == 0x74 && b[3] == 0x61 {
        proof {
            assert(sb.take(4) =~= seq![0x64u8, 0x61u8, 0x74u8, 0x61u8]);
        }
        return Some(FuncOrDataId::Data(DataId(idx)));
    }
    proof {
        assert(sb.take(4) != seq![0x66u8, 0x75u8, 0x6eu8, 0x63u8] && sb.take(4) != seq![
            0x64u8,
            0x61u8,
            0x74u8,
            0x61u8,
        ]) by {
            if sb.take(4) == seq![0x66u8, 0x75u8, 0x6eu8, 0x63u8] {
                assert(sb.take(4)[0] == 0x66u8 && sb.take(4)[1] == 0x75u8 && sb.take(4)[2]
                    == 0x6eu8 && sb.take(4)[3] == 0x63u8);
            }
            if sb.take(4) == seq![0x64u8, 0x61u8, 0x74u8, 0x61u8] {
                assert(sb.take(4)[0] == 0x64u8 && sb.take(4)[1] == 0x61u8 && sb.take(4)[2]
                    == 0x74u8 && sb.take(4)[3] == 0x61u8);
            }
        };
    }
    None
}

/// Identifier of a declared function.
#[derive(Clone, Copy, Debug, PartialEq, Eq, Structural, Hash)]
pub struct FuncId(pub u32);

/// Identifier of a declared data object.
#[derive(Clone, Copy, Debug, PartialEq, Eq, Structural, Hash)]
pub struct DataId(pub u32);

/// Either kind of identifier, tagged.
#[derive(Clone, Copy, Debug, PartialEq, Eq, Structural, Hash)]
pub enum FuncOrDataId {
    Func(FuncId),
    Data(DataId),
}

impl FuncId {
    pub fn from_u32(index: u32) -> (r: Self)
        ensures
            r == FuncId(index),
    {
        FuncId(index)
    }

    pub fn as_u32(self) -> (r: u32)
        ensures
            r == self.0,
    {
        self.0
    }
}

impl DataId {
    pub fn from_u32(index: u32) -> (r: Self)
        ensures
            r == DataId(index),
    {
        DataId(index)
    }

    pub fn as_u32(self) -> (r: u32)
        ensures
            r == self.0,
    {
        self.0
    }
}

} // verus!
