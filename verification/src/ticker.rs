//! Ticker symbols: a fixed-width instrument identifier of four raw bytes,
//! ASCII, NUL-padded on the right.

use vstd::prelude::*;
use vstd::string::StringSliceAdditionalSpecFns;

verus! {

/// Four raw bytes; input longer than four bytes is silently truncated,
/// shorter input is padded with NUL bytes on the right.
#[derive(Debug, Clone, Copy, PartialEq, Eq, PartialOrd, Ord, Hash)]
pub struct TickerSymbol(pub [u8; 4]);

/// The four bytes a symbol built from `bytes` holds: the first four bytes,
/// NUL-padded on the right.
pub open spec fn symbol_bytes(bytes: Seq<u8>) -> Seq<u8> {
    Seq::new(4, |i: int| if i < bytes.len() { bytes[i] } else { 0 })
}

impl View for TickerSymbol {
    type V = Seq<u8>;

    open spec fn view(&self) -> Seq<u8> {
        self.0@
    }
}

/// Every byte is ASCII.
pub open spec fn symbol_is_ascii(bytes: Seq<u8>) -> bool {
    forall|i: int| 0 <= i < bytes.len() ==> bytes[i] < 128
}

/// The length of `bytes` without its trailing NUL padding.
pub open spec fn trimmed_len(bytes: Seq<u8>) -> int
    decreases bytes.len(),
{
    if bytes.len() == 0 {
        0
    } else if bytes.last() == 0 {
        trimmed_len(bytes.drop_last())
    } else {
        bytes.len() as int
    }
}

/// The symbol's text: its bytes up to the trailing NUL padding, read as
/// characters.
pub open spec fn symbol_chars(bytes: Seq<u8>) -> Seq<char> {
    Seq::new(trimmed_len(bytes) as nat, |i: int| bytes[i] as char)
}

impl TickerSymbol {
    /// The symbol's text, the trailing NUL padding trimmed; "NULL" when any
    /// byte is not ASCII.
    pub fn to_string(&self) -> (s: String)
        ensures
            symbol_is_ascii(self@) ==> s@ == symbol_chars(self@),
            !symbol_is_ascii(self@) ==> s@ == "NULL"@,
    {
        let b = self.0;
        proof {
            assert(b@ =~= self@);
        }
        if b[0] >= 128 || b[1] >= 128 || b[2] >= 128 || b[3] >= 128 {
            let mut s = String::new();
            s.append("NULL");
            proof {
                assert(s@ =~= "NULL"@);
            }
            return s;
        }
        let len: usize = if b[3] != 0 {
            4
        } else if b[2] != 0 {
            3
        } else if b[1] != 0 {
            2
        } else if b[0] != 0 {
            1
        } else {
            0
        };
        proof {
            reveal_with_fuel(trimmed_len, 5);
            assert(b@.drop_last() =~= b@.take(3));
            assert(b@.take(3).drop_last() =~= b@.take(2));
            assert(b@.take(2).drop_last() =~= b@.take(1));
            assert(b@.take(1).drop_last() =~= b@.take(0));
            assert(trimmed_len(self@) == len);
        }
        let mut s = String::new();
        let mut k: usize = 0;
        while k < len
            invariant
                k <= len <= 4,
                len == trimmed_len(self@),
                b@ == self@,
                s@ == symbol_chars(self@).take(k as int),
            decreases len - k,
        {
            s.push(b[k] as char);
            k = k + 1;
            proof {
                assert(s@ =~= symbol_chars(self@).take(k as int));
            }
        }
        proof {
            assert(symbol_chars(self@).take(len as int) =~= symbol_chars(self@));
        }
        s
    }

    pub fn new(input: &str) -> (r: TickerSymbol)
        ensures
            r@ == symbol_bytes(input.spec_bytes()),
    {
        let b = input.as_bytes();
        let b0 = if b.len() > 0 { b[0] } else { 0 };
        let b1 = if b.len() > 1 { b[1] } else { 0 };
        let b2 = if b.len() > 2 { b[2] } else { 0 };
        let b3 = if b.len() > 3 { b[3] } else { 0 };
        let r = TickerSymbol([b0, b1, b2, b3]);
        proof {
            assert(r@ =~= symbol_bytes(input.spec_bytes()));
        }
        r
    }
}

} // verus!
