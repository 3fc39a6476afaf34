//! Readings written out as text: one decimal after the point, then the unit.
use crate::frame::{Humidity, Temperature};
use vstd::prelude::*;
use vstd::string::*;

verus! {

/// The character of the decimal digit `d`.
pub open spec fn digit_char(d: int) -> char {
    seq!['0', '1', '2', '3', '4', '5', '6', '7', '8', '9'][d]
}

/// `n` in decimal, without leading zeros.
pub open spec fn decimal(n: nat) -> Seq<char>
    decreases n,
{
    if n < 10 {
        seq![digit_char(n as int)]
    } else {
        decimal(n / 10) + seq![digit_char((n % 10) as int)]
    }
}

/// A count of tenths written as units, a point and the tenths digit.
pub open spec fn tenths_text(t: nat) -> Seq<char> {
    decimal(t / 10) + seq!['.'] + decimal(t % 10)
}

/// A temperature in tenths of a degree, as in `23.5°C` or `-23.5°C`.
pub open spec fn temperature_text(t: int) -> Seq<char> {
    let sign = if t < 0 {
        seq!['-']
    } else {
        Seq::<char>::empty()
    };
    let magnitude = if t < 0 {
        -t
    } else {
        t
    };
    sign + tenths_text(magnitude as nat) + seq!['\u{b0}', 'C']
}

/// A humidity in tenths of a percent, as in `48.2%`.
pub open spec fn humidity_text(h: nat) -> Seq<char> {
    tenths_text(h) + seq!['%']
}

fn digit_str(d: u16) -> (r: &'static str)
    requires
        d < 10,
    ensures
        r@ == seq![digit_char(d as int)],
{
    match d {
        0 => {
            proof {
                reveal_strlit("0");
            }
            "0"
        },
        1 => {
            proof {
                reveal_strlit("1");
            }
            "1"
        },
        2 => {
            proof {
                reveal_strlit("2");
            }
            "2"
        },
        3 => {
            proof {
                reveal_strlit("3");
            }
            "3"
        },
        4 => {
            proof {
                reveal_strlit("4");
            }
            "4"
        },
        5 => {
            proof {
                reveal_strlit("5");
            }
            "5"
        },
        6 => {
            proof {
                reveal_strlit("6");
            }
            "6"
        },
        7 => {
            proof {
                reveal_strlit("7");
            }
            "7"
        },
        8 => {
            proof {
                reveal_strlit("8");
            }
            "8"
        },
        _ => {
            proof {
                reveal_strlit("9");
            }
            "9"
        },
    }
}

fn push_decimal(s: &mut String, n: u16)
    ensures
        final(s)@ == old(s)@ + decimal(n as nat),
    decreases n,
{
    if n >= 10 {
        push_decimal(s, n / 10);
    }
    s.append(digit_str(n % 10));
    proof {
        assert(final(s)@ =~= old(s)@ + decimal(n as nat));
    }
}

fn push_tenths(s: &mut String, t: u16)
    ensures
        final(s)@ == old(s)@ + tenths_text(t as nat),
{
    push_decimal(s, t / 10);
    proof {
        reveal_strlit(".");
    }
    s.append(".");
    push_decimal(s, t % 10);
    proof {
        assert(final(s)@ =~= old(s)@ + tenths_text(t as nat));
    }
}

impl Temperature {
    /// The temperature as text, as in `23.5°C`; a negative one starts with `-`.
    pub fn to_string(&self) -> (r: String)
        ensures
            r@ == temperature_text(self.0 as int),
    {
        let mut s = String::new();
        let t = self.0;
        let magnitude: u16 = if t < 0 {
            proof {
                reveal_strlit("-");
            }
            s.append("-");
            (-(t as i32)) as u16
        } else {
            t as u16
        };
        push_tenths(&mut s, magnitude);
        proof {
            reveal_strlit("\u{b0}C");
        }
        s.append("\u{b0}C");
        proof {
            assert(s@ =~= temperature_text(self.0 as int));
        }
        s
    }
}

impl Humidity {
    /// The humidity as text, as in `48.2%`.
    pub fn to_string(&self) -> (r: String)
        ensures
            r@ == humidity_text(self.0 as nat),
    {
        let mut s = String::new();
        push_tenths(&mut s, self.0);
        proof {
            reveal_strlit("%");
        }
        s.append("%");
        proof {
            assert(s@ =~= humidity_text(self.0 as nat));
        }
        s
    }
}

} // verus!
