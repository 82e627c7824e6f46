//! Fill and stroke colours as SVG writes them.

use vstd::prelude::*;
use vstd::std_specs::convert::FromSpecImpl;
use vstd::string::StringExecFns;

verus! {

/// A colour: three bytes for red, green and blue, or a name such as `red`.
#[derive(Clone, Copy, Debug)]
pub enum Color {
    RGB(u8, u8, u8),
    Name(&'static str),
}

/// The character that writes a hexadecimal digit, in lower case.
pub open spec fn hex_char(d: nat) -> char {
    if d < 10 {
        crate::text::digit_char(d)
    } else if d == 10 {
        'a'
    } else if d == 11 {
        'b'
    } else if d == 12 {
        'c'
    } else if d == 13 {
        'd'
    } else if d == 14 {
        'e'
    } else {
        'f'
    }
}

/// A byte as two hexadecimal digits.
pub open spec fn hex_byte(b: u8) -> Seq<char> {
    seq![hex_char((b / 16) as nat), hex_char((b % 16) as nat)]
}

/// The colour as SVG writes it: `#rrggbb` for three bytes, the name for a name.
pub open spec fn color_text(c: Color) -> Seq<char> {
    match c {
        Color::RGB(r, g, b) => seq!['#'] + hex_byte(r) + hex_byte(g) + hex_byte(b),
        Color::Name(name) => name@,
    }
}

/// The hexadecimal digit `d` as a one-character string slice.
fn hex_str(d: u8) -> (s: &'static str)
    requires
        d < 16,
    ensures
        s@ == seq![hex_char(d as nat)],
{
    if d < 10 {
        crate::text::digit_str(d as usize)
    } else {
        proof {
            reveal_strlit("a");
            reveal_strlit("b");
            reveal_strlit("c");
            reveal_strlit("d");
            reveal_strlit("e");
            reveal_strlit("f");
        }
        let s = if d == 10 {
            "a"
        } else if d == 11 {
            "b"
        } else if d == 12 {
            "c"
        } else if d == 13 {
            "d"
        } else if d == 14 {
            "e"
        } else {
            "f"
        };
        assert(s@ =~= seq![hex_char(d as nat)]);
        s
    }
}

/// Appends a byte as two hexadecimal digits.
fn push_hex(out: &mut String, b: u8)
    ensures
        final(out)@ == old(out)@ + hex_byte(b),
{
    out.append(hex_str(b / 16));
    out.append(hex_str(b % 16));
    proof {
        assert(final(out)@ =~= old(out)@ + hex_byte(b));
    }
}

impl From<Color> for String {
    /// The colour as SVG writes it.
    fn from(c: Color) -> (text: String)
        ensures
            text@ == color_text(c),
    {
        c.text()
    }
}

impl FromSpecImpl<Color> for String {
    /// A string is known by its characters only, which `from` states.
    open spec fn obeys_from_spec() -> bool {
        false
    }

    open spec fn from_spec(c: Color) -> String {
        arbitrary()
    }
}

impl From<&'static str> for Color {
    /// The colour of that name.
    fn from(s: &'static str) -> (c: Color) {
        Color::Name(s)
    }
}

impl FromSpecImpl<&'static str> for Color {
    open spec fn obeys_from_spec() -> bool {
        true
    }

    open spec fn from_spec(s: &'static str) -> Color {
        Color::Name(s)
    }
}

impl Color {
    /// The colour as SVG writes it.
    pub fn text(&self) -> (text: String)
        ensures
            text@ == color_text(*self),
    {
        match self {
            Color::RGB(r, g, b) => {
                proof {
                    reveal_strlit("#");
                }
                let mut text = String::from_str("#");
                push_hex(&mut text, *r);
                push_hex(&mut text, *g);
                push_hex(&mut text, *b);
                proof {
                    assert(text@ =~= color_text(*self));
                }
                text
            },
            Color::Name(name) => String::from_str(name),
        }
    }
}

} // verus!
