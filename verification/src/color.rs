use vstd::prelude::*;

verus! {

/// An RGB color of a placed part.
#[derive(Debug, Clone, Copy, PartialEq, Eq, Structural)]
pub struct Color {
    pub r: u8,
    pub g: u8,
    pub b: u8,
}

/// The character of a hexadecimal digit `d` (`0 <= d < 16`), in upper case.
pub open spec fn hex_digit_upper(d: int) -> char {
    if d < 10 {
        (48 + d) as char
    } else {
        (55 + d) as char
    }
}

/// Upper-case hexadecimal text of a byte string: two digits per byte, high nibble first.
pub open spec fn hex_upper(bytes: Seq<u8>) -> Seq<char>
    decreases bytes.len(),
{
    if bytes.len() == 0 {
        Seq::empty()
    } else {
        hex_upper(bytes.drop_last()) + seq![
            hex_digit_upper(bytes.last() as int / 16),
            hex_digit_upper(bytes.last() as int % 16),
        ]
    }
}

/// Calls `hex::encode_upper`, which the crate documents as the hex encoding of the
/// bytes with the digits `0-9A-F`, two per byte, high nibble first.
#[verifier::external_body]
fn encode_upper(data: &Vec<u8>) -> (s: String)
    ensures
        s@ == hex_upper(data@),
{
    hex::encode_upper(data)
}

impl Color {
    pub open spec fn spec_rgb(r: u8, g: u8, b: u8) -> Color {
        Color { r, g, b }
    }

    /// Color of an ordinary (hidden) gate.
    pub fn single() -> (c: Self)
        ensures
            c == Color::spec_rgb(30, 30, 30),
    {
        Self { r: 30, g: 30, b: 30 }
    }

    /// First color of input groups.
    pub fn input1() -> (c: Self)
        ensures
            c == Color::spec_rgb(0, 0, 255),
    {
        Self { r: 0, g: 0, b: 255 }
    }

    /// Second color of input groups.
    pub fn input2() -> (c: Self)
        ensures
            c == Color::spec_rgb(0, 0, 150),
    {
        Self { r: 0, g: 0, b: 150 }
    }

    /// First color of output groups.
    pub fn output1() -> (c: Self)
        ensures
            c == Color::spec_rgb(255, 0, 0),
    {
        Self { r: 255, g: 0, b: 0 }
    }

    /// Second color of output groups.
    pub fn output2() -> (c: Self)
        ensures
            c == Color::spec_rgb(150, 0, 0),
    {
        Self { r: 150, g: 0, b: 0 }
    }

    /// Color of display pixels.
    pub fn display() -> (c: Self)
        ensures
            c == Color::spec_rgb(0, 0, 0),
    {
        Self { r: 0, g: 0, b: 0 }
    }

    /// The color as six upper-case hex digits `RRGGBB`.
    pub fn to_string(&self) -> (s: String)
        ensures
            s@ == hex_upper(seq![self.r, self.g, self.b]),
    {
        let v: Vec<u8> = vec![self.r, self.g, self.b];
        proof {
            assert(v@ =~= seq![self.r, self.g, self.b]);
        }
        encode_upper(&v)
    }
}

} // verus!
