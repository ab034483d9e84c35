//! Notational styles for rendering variables, connectives, truth values
//! and literals. Rendering to the terminal itself (with colors) lives
//! outside the library; these functions compute the text of each piece.
use vstd::prelude::*;
use vstd::string::StringExecFns;

use crate::types::Literal;

verus! {

/// A notational style: plain text, programming-language operators, or
/// mathematical symbols.
#[derive(Debug, Clone, Copy, PartialEq, Eq)]
pub enum PrintStyle {
    Normal,
    Programmatic,
    Mathematical,
}

impl Default for PrintStyle {
    fn default() -> (r: Self)
        ensures
            r == PrintStyle::Normal,
    {
        PrintStyle::Normal
    }
}

/// The decimal digit character of a value below ten.
pub open spec fn digit_char(d: nat) -> char {
    if d == 1 {
        '1'
    } else if d == 2 {
        '2'
    } else if d == 3 {
        '3'
    } else if d == 4 {
        '4'
    } else if d == 5 {
        '5'
    } else if d == 6 {
        '6'
    } else if d == 7 {
        '7'
    } else if d == 8 {
        '8'
    } else if d == 9 {
        '9'
    } else {
        '0'
    }
}

/// The subscript digit character of a value below ten.
pub open spec fn sub_char(d: nat) -> char {
    if d == 1 {
        '₁'
    } else if d == 2 {
        '₂'
    } else if d == 3 {
        '₃'
    } else if d == 4 {
        '₄'
    } else if d == 5 {
        '₅'
    } else if d == 6 {
        '₆'
    } else if d == 7 {
        '₇'
    } else if d == 8 {
        '₈'
    } else if d == 9 {
        '₉'
    } else {
        '₀'
    }
}

/// The decimal digits of a number, most significant first.
pub open spec fn dec_digits(n: nat) -> Seq<char>
    decreases n,
{
    if n < 10 {
        seq![digit_char(n)]
    } else {
        dec_digits(n / 10) + seq![digit_char(n % 10)]
    }
}

/// The subscript decimal digits of a number, most significant first.
pub open spec fn sub_digits(n: nat) -> Seq<char>
    decreases n,
{
    if n < 10 {
        seq![sub_char(n)]
    } else {
        sub_digits(n / 10) + seq![sub_char(n % 10)]
    }
}

/// The negation marker of a style.
pub open spec fn spec_neg_sign(style: PrintStyle) -> Seq<char> {
    match style {
        PrintStyle::Normal => seq!['-'],
        PrintStyle::Programmatic => seq!['!'],
        PrintStyle::Mathematical => seq!['¬'],
    }
}

/// The rendering of a truth value in a style.
pub open spec fn spec_bool_style(style: PrintStyle, value: bool) -> Seq<char> {
    match style {
        PrintStyle::Normal => if value {
            seq!['T']
        } else {
            seq!['F']
        },
        PrintStyle::Programmatic => if value {
            seq!['1']
        } else {
            seq!['0']
        },
        PrintStyle::Mathematical => if value {
            seq!['⊤']
        } else {
            seq!['⊥']
        },
    }
}

/// The conjunction connective of a style.
pub open spec fn spec_and_style(style: PrintStyle) -> Seq<char> {
    match style {
        PrintStyle::Normal => seq!['a', 'n', 'd'],
        PrintStyle::Programmatic => seq!['&'],
        PrintStyle::Mathematical => seq!['∧'],
    }
}

/// The disjunction connective of a style.
pub open spec fn spec_or_style(style: PrintStyle) -> Seq<char> {
    match style {
        PrintStyle::Normal => seq!['o', 'r'],
        PrintStyle::Programmatic => seq!['|'],
        PrintStyle::Mathematical => seq!['∨'],
    }
}

/// The rendering of a literal identifier in a style: an upright `X` with
/// decimal digits, or an italic letter with subscript digits in the
/// mathematical style.
pub open spec fn spec_lit_style(style: PrintStyle, id: Literal) -> Seq<char> {
    match style {
        PrintStyle::Mathematical => seq!['𝑋'] + sub_digits(id as nat),
        _ => seq!['X'] + dec_digits(id as nat),
    }
}

/// The decimal digit of a value below ten, as text.
fn digit_str(d: u32) -> (r: &'static str)
    requires
        d < 10,
    ensures
        r@ == seq![digit_char(d as nat)],
{
    match d {
        0 => {
            proof {
                reveal_strlit("0");
            }
            "0"
        },
        1 => {
            proof {
                reveal_strlit("1");
            }
            "1"
        },
        2 => {
            proof {
                reveal_strlit("2");
            }
            "2"
        },
        3 => {
            proof {
                reveal_strlit("3");
            }
            "3"
        },
        4 => {
            proof {
                reveal_strlit("4");
            }
            "4"
        },
        5 => {
            proof {
                reveal_strlit("5");
            }
            "5"
        },
        6 => {
            proof {
                reveal_strlit("6");
            }
            "6"
        },
        7 => {
            proof {
                reveal_strlit("7");
            }
            "7"
        },
        8 => {
            proof {
                reveal_strlit("8");
            }
            "8"
        },
        _ => {
            proof {
                reveal_strlit("9");
            }
            "9"
        },
    }
}

/// The subscript digit of a value below ten, as text.
fn sub_str(d: u32) -> (r: &'static str)
    requires
        d < 10,
    ensures
        r@ == seq![sub_char(d as nat)],
{
    match d {
        0 => {
            proof {
                reveal_strlit("₀");
            }
            "₀"
        },
        1 => {
            proof {
                reveal_strlit("₁");
            }
            "₁"
        },
        2 => {
            proof {
                reveal_strlit("₂");
            }
            "₂"
        },
        3 => {
            proof {
                reveal_strlit("₃");
            }
            "₃"
        },
        4 => {
            proof {
                reveal_strlit("₄");
            }
            "₄"
        },
        5 => {
            proof {
                reveal_strlit("₅");
            }
            "₅"
        },
        6 => {
            proof {
                reveal_strlit("₆");
            }
            "₆"
        },
        7 => {
            proof {
                reveal_strlit("₇");
            }
            "₇"
        },
        8 => {
            proof {
                reveal_strlit("₈");
            }
            "₈"
        },
        _ => {
            proof {
                reveal_strlit("₉");
            }
            "₉"
        },
    }
}

/// Append the decimal digits of a number, most significant first.
fn push_dec(s: &mut String, n: u32)
    ensures
        final(s)@ == old(s)@ + dec_digits(n as nat),
    decreases n,
{
    let ghost mid = s@;
    if n >= 10 {
        push_dec(s, n / 10);
    }
    let d = n % 10;
    let ds = digit_str(d);
    s.append(ds);
    proof {
        if n >= 10 {
            assert(final(s)@ == (old(s)@ + dec_digits((n / 10) as nat)) + seq![
                digit_char((n % 10) as nat),
            ]);
            assert((old(s)@ + dec_digits((n / 10) as nat)) + seq![digit_char((n % 10) as nat)]
                =~= old(s)@ + (dec_digits((n / 10) as nat) + seq![digit_char((n % 10) as nat)]));
        } else {
            assert(dec_digits(n as nat) == seq![digit_char(n as nat)]);
        }
    }
}

/// Append the subscript digits of a number, most significant first.
fn push_sub(s: &mut String, n: u32)
    ensures
        final(s)@ == old(s)@ + sub_digits(n as nat),
    decreases n,
{
    if n >= 10 {
        push_sub(s, n / 10);
    }
    let d = n % 10;
    let ds = sub_str(d);
    s.append(ds);
    proof {
        if n >= 10 {
            assert((old(s)@ + sub_digits((n / 10) as nat)) + seq![sub_char((n % 10) as nat)]
                =~= old(s)@ + (sub_digits((n / 10) as nat) + seq![sub_char((n % 10) as nat)]));
        } else {
            assert(sub_digits(n as nat) == seq![sub_char(n as nat)]);
        }
    }
}

impl PrintStyle {
    /// The negation marker of the style.
    pub fn neg_sign(&self) -> (r: &'static str)
        ensures
            r@ == spec_neg_sign(*self),
    {
        match self {
            PrintStyle::Normal => {
                proof {
                    reveal_strlit("-");
                }
                "-"
            },
            PrintStyle::Programmatic => {
                proof {
                    reveal_strlit("!");
                }
                "!"
            },
            PrintStyle::Mathematical => {
                proof {
                    reveal_strlit("¬");
                }
                "¬"
            },
        }
    }

    /// The rendering of a truth value in the style.
    pub fn bool_style(&self, value: bool) -> (r: &'static str)
        ensures
            r@ == spec_bool_style(*self, value),
    {
        match self {
            PrintStyle::Programmatic => {
                if value {
                    proof {
                        reveal_strlit("1");
                    }
                    "1"
                } else {
                    proof {
                        reveal_strlit("0");
                    }
                    "0"
                }
            },
            PrintStyle::Normal => {
                if value {
                    proof {
                        reveal_strlit("T");
                    }
                    "T"
                } else {
                    proof {
                        reveal_strlit("F");
                    }
                    "F"
                }
            },
            PrintStyle::Mathematical => {
                if value {
                    proof {
                        reveal_strlit("⊤");
                    }
                    "⊤"
                } else {
                    proof {
                        reveal_strlit("⊥");
                    }
                    "⊥"
                }
            },
        }
    }

    /// The rendering of a literal identifier in the style.
    pub fn lit_style(&self, id: Literal) -> (r: String)
        ensures
            r@ == spec_lit_style(*self, id),
    {
        match self {
            PrintStyle::Mathematical => {
                let mut s = String::from_str("𝑋");
                proof {
                    reveal_strlit("𝑋");
                }
                push_sub(&mut s, id);
                proof {
                    assert(s@ =~= spec_lit_style(*self, id));
                }
                s
            },
            _ => {
                let mut s = String::from_str("X");
                proof {
                    reveal_strlit("X");
                }
                push_dec(&mut s, id);
                proof {
                    assert(s@ =~= spec_lit_style(*self, id));
                }
                s
            },
        }
    }

    /// The conjunction connective of the style.
    pub fn and_style(&self) -> (r: &'static str)
        ensures
            r@ == spec_and_style(*self),
    {
        match self {
            PrintStyle::Mathematical => {
                proof {
                    reveal_strlit("∧");
                }
                "∧"
            },
            PrintStyle::Normal => {
                proof {
                    reveal_strlit("and");
                }
                "and"
            },
            PrintStyle::Programmatic => {
                proof {
                    reveal_strlit("&");
                }
                "&"
            },
        }
    }

    /// The disjunction connective of the style.
    pub fn or_style(&self) -> (r: &'static str)
        ensures
            r@ == spec_or_style(*self),
    {
        match self {
            PrintStyle::Mathematical => {
                proof {
                    reveal_strlit("∨");
                }
                "∨"
            },
            PrintStyle::Normal => {
                proof {
                    reveal_strlit("or");
                }
                "or"
            },
            PrintStyle::Programmatic => {
                proof {
                    reveal_strlit("|");
                }
                "|"
            },
        }
    }
}

} // verus!
