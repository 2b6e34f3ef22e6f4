//! Point identifiers: the 128 bits of a UUID, with the hyphenated lowercase
//! text form that the rest of the pipeline uses for file names and keys.

use vstd::prelude::*;

verus! {

/// Identifier of one stored point: the 128 bits of a UUID.
#[derive(Clone, Copy, PartialEq, Eq, Structural, Hash, Debug)]
pub struct PointId {
    pub value: u128,
}

/// The lowercase hexadecimal digit for a value below sixteen.
pub open spec fn nibble_char(d: int) -> char {
    if d == 0 {
        '0'
    } else if d == 1 {
        '1'
    } else if d == 2 {
        '2'
    } else if d == 3 {
        '3'
    } else if d == 4 {
        '4'
    } else if d == 5 {
        '5'
    } else if d == 6 {
        '6'
    } else if d == 7 {
        '7'
    } else if d == 8 {
        '8'
    } else if d == 9 {
        '9'
    } else if d == 10 {
        'a'
    } else if d == 11 {
        'b'
    } else if d == 12 {
        'c'
    } else if d == 13 {
        'd'
    } else if d == 14 {
        'e'
    } else {
        'f'
    }
}

/// Nibble `i` of a 128-bit value, counting from the most significant.
pub open spec fn nibble_of(n: u128, i: int) -> int {
    ((n >> (((31 - i) * 4) as u128)) & 0xf) as int
}

/// The text written after the first `i` of the 32 nibbles of `n`:
/// lowercase hex, with a hyphen before nibbles 8, 12, 16 and 20.
pub open spec fn uuid_text_prefix(n: u128, i: int) -> Seq<char>
    decreases i,
{
    if i <= 0 {
        Seq::empty()
    } else {
        uuid_text_prefix(n, i - 1) + (if i - 1 == 8 || i - 1 == 12 || i - 1 == 16 || i - 1 == 20 {
            seq!['-']
        } else {
            Seq::<char>::empty()
        }) + seq![nibble_char(nibble_of(n, i - 1))]
    }
}

/// The hyphenated lowercase text of a UUID value, 8-4-4-4-12 hex digits.
pub open spec fn uuid_text(n: u128) -> Seq<char> {
    uuid_text_prefix(n, 32)
}

/// The one-character string for a hex digit.
fn nibble_str(d: u8) -> (s: &'static str)
    requires
        d < 16,
    ensures
        s@ =~= seq![nibble_char(d as int)],
{
    if d == 0 {
        proof {
            reveal_strlit("0");
        }
        "0"
    } else if d == 1 {
        proof {
            reveal_strlit("1");
        }
        "1"
    } else if d == 2 {
        proof {
            reveal_strlit("2");
        }
        "2"
    } else if d == 3 {
        proof {
            reveal_strlit("3");
        }
        "3"
    } else if d == 4 {
        proof {
            reveal_strlit("4");
        }
        "4"
    } else if d == 5 {
        proof {
            reveal_strlit("5");
        }
        "5"
    } else if d == 6 {
        proof {
            reveal_strlit("6");
        }
        "6"
    } else if d == 7 {
        proof {
            reveal_strlit("7");
        }
        "7"
    } else if d == 8 {
        proof {
            reveal_strlit("8");
        }
        "8"
    } else if d == 9 {
        proof {
            reveal_strlit("9");
        }
        "9"
    } else if d == 10 {
        proof {
            reveal_strlit("a");
        }
        "a"
    } else if d == 11 {
        proof {
            reveal_strlit("b");
        }
        "b"
    } else if d == 12 {
        proof {
            reveal_strlit("c");
        }
        "c"
    } else if d == 13 {
        proof {
            reveal_strlit("d");
        }
        "d"
    } else if d == 14 {
        proof {
            reveal_strlit("e");
        }
        "e"
    } else {
        proof {
            reveal_strlit("f");
        }
        "f"
    }
}

impl PointId {
    /// Wrap a 128-bit value as a point identifier.
    pub fn from_u128(value: u128) -> (r: PointId)
        ensures
            r.value == value,
    {
        PointId { value }
    }

    /// The hyphenated lowercase UUID text of this identifier.
    pub fn hyphenated(&self) -> (s: String)
        ensures
            s@ == uuid_text(self.value),
    {
        let n = self.value;
        let mut s = String::new();
        let mut i: usize = 0;
        while i < 32
            invariant
                i <= 32,
                n == self.value,
                s@ == uuid_text_prefix(n, i as int),
            decreases 32 - i,
        {
            if i == 8 || i == 12 || i == 16 || i == 20 {
                proof {
                    reveal_strlit("-");
                }
                s.append("-");
            }
            let sh: u128 = ((31 - i) * 4) as u128;
            let d: u8 = ((n >> sh) & 0xf) as u8;
            proof {
                assert((n >> sh) & 0xf < 16) by (bit_vector);
                assert(d as int == nibble_of(n, i as int));
            }
            s.append(nibble_str(d));
            proof {
                assert(s@ =~= uuid_text_prefix(n, i as int + 1));
            }
            i = i + 1;
        }
        s
    }
}

} // verus!
