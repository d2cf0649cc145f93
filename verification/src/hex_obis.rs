//! A hex-only OBIS reader: the simpler shape of the value type for callers
//! that only ever see the twelve-digit hex form. It carries no style tag and
//! always renders in hex.

use vstd::prelude::*;

use crate::obis::{chars_of, hex_display, parse_hex, parse_hex_trimmed, Obis, ObisError, ObisForm};

verus! {

/// An OBIS code read from the twelve-digit hex form alone.
#[derive(Clone, Copy, Debug)]
pub struct HexObis {
    pub code: [u8; 6],
}

impl HexObis {
    /// Parse exactly twelve hex digits. Unlike `Obis::from_str`, no other
    /// form is accepted and the input is taken as it stands, untrimmed.
    pub fn from_str(s: &str) -> (r: Result<HexObis, ObisError>)
        ensures
            match r {
                Ok(h) => parse_hex(s@) matches Ok(p) && h.code@ == p.0,
                Err(e) => parse_hex(s@) matches Err(pe) && e == pe,
            },
    {
        let v = chars_of(s);
        match parse_hex_trimmed(&v) {
            Ok(o) => Ok(HexObis { code: o.code }),
            Err(e) => Err(e),
        }
    }

    /// Render as six two-digit uppercase hex bytes joined by `.`.
    pub fn display(&self) -> (r: String)
        ensures
            r@ == hex_display(self.code@),
    {
        let o = Obis { code: self.code, style: ObisForm::Hex };
        o.display()
    }
}

impl PartialEq for HexObis {
    fn eq(&self, other: &HexObis) -> (r: bool) {
        let r = self.code[0] == other.code[0] && self.code[1] == other.code[1]
            && self.code[2] == other.code[2] && self.code[3] == other.code[3]
            && self.code[4] == other.code[4] && self.code[5] == other.code[5];
        proof {
            if r {
                assert(self.code@ =~= other.code@);
            }
            if self.code@ == other.code@ {
                assert(self.code[0] == other.code[0]);
            }
        }
        r
    }
}

impl vstd::std_specs::cmp::PartialEqSpecImpl for HexObis {
    open spec fn obeys_eq_spec() -> bool {
        true
    }

    open spec fn eq_spec(&self, other: &HexObis) -> bool {
        self.code@ == other.code@
    }
}

} // verus!
