//! The byte transformation of the `cat`-style client utility: how one
//! input byte is shown under the display flags (show tabs, show ends,
//! show nonprinting).

use vstd::prelude::*;

verus! {

/// The display switches that shape the output.
#[derive(Clone, Copy, Debug, PartialEq, Eq)]
pub struct CatFlags {
    pub show_ends: bool,
    pub show_tabs: bool,
    pub show_nonprinting: bool,
}

/// What one byte prints as: control bytes in caret notation, high bytes
/// in meta notation, tabs and line ends by their markers - each only
/// under its flag, everything else unchanged.
pub open spec fn rendered_byte(f: CatFlags, b: u8) -> Seq<u8> {
    if (b <= 8 || (11 <= b && b <= 12) || (14 <= b && b <= 31)) {
        if f.show_nonprinting {
            seq![94u8, (b + 64) as u8]
        } else {
            seq![b]
        }
    } else if b == 9 {
        if f.show_tabs {
            seq![94u8, 73u8]
        } else {
            seq![b]
        }
    } else if b == 10 {
        if f.show_ends {
            seq![36u8, 10u8]
        } else {
            seq![b]
        }
    } else if b == 127 {
        if f.show_nonprinting {
            seq![94u8, 63u8]
        } else {
            seq![b]
        }
    } else if b >= 128 {
        if f.show_nonprinting {
            let a = (b - 128) as u8;
            if 32 <= a && a <= 126 {
                seq![77u8, 45u8, a]
            } else if a == 127 {
                seq![77u8, 45u8, 94u8, 63u8]
            } else {
                seq![77u8, 45u8, 94u8, (a + 64) as u8]
            }
        } else {
            seq![b]
        }
    } else {
        seq![b]
    }
}

impl CatFlags {
    /// Render one byte for display.
    pub fn process_byte(&self, byte: u8) -> (r: Vec<u8>)
        ensures
            r@ == rendered_byte(*self, byte),
    {
        let mut output: Vec<u8> = Vec::new();
        if byte <= 8 || (11 <= byte && byte <= 12) || (14 <= byte && byte <= 31) {
            if self.show_nonprinting {
                output.push(94u8);
                output.push(byte + 64);
            } else {
                output.push(byte);
            }
        } else if byte == 9 {
            if self.show_tabs {
                output.push(94u8);
                output.push(73u8);
            } else {
                output.push(byte);
            }
        } else if byte == 10 {
            if self.show_ends {
                output.push(36u8);
                output.push(10u8);
            } else {
                output.push(byte);
            }
        } else if byte == 127 {
            if self.show_nonprinting {
                output.push(94u8);
                output.push(63u8);
            } else {
                output.push(byte);
            }
        } else if byte >= 128 {
            if self.show_nonprinting {
                let adjusted: u8 = byte - 128;
                if 32 <= adjusted && adjusted <= 126 {
                    output.push(77u8);
                    output.push(45u8);
                    output.push(adjusted);
                } else if adjusted == 127 {
                    output.push(77u8);
                    output.push(45u8);
                    output.push(94u8);
                    output.push(63u8);
                } else {
                    output.push(77u8);
                    output.push(45u8);
                    output.push(94u8);
                    output.push(adjusted + 64);
                }
            } else {
                output.push(byte);
            }
        } else {
            output.push(byte);
        }
        proof {
            assert(output@ =~= rendered_byte(*self, byte));
        }
        output
    }
}

} // verus!
