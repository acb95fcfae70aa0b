use vstd::prelude::*;
use crate::types::data_type::{compute_lane, lane_computed, Operator};

verus! {

/// The binary64 bit pattern of the number one.
pub const ONE: u64 = 0x3FF0_0000_0000_0000;

/// What a color is made from: three or four channels given as binary64 bit
/// patterns, or six or eight hexadecimal digits.
pub enum ColorValue {
    RGB(u64, u64, u64),
    RGBA(u64, u64, u64, u64),
    HEX([char; 6]),
    HEXA([char; 8]),
}

/// Four channels, each a binary64 bit pattern.
#[derive(Clone, Copy, Debug, PartialEq, Eq, Structural)]
pub struct Color {
    pub r: u64,
    pub g: u64,
    pub b: u64,
    pub a: u64,
}

impl Default for Color {
    /// Transparent black: every channel is the pattern of positive zero.
    fn default() -> (c: Color)
        ensures
            c == (Color { r: 0, g: 0, b: 0, a: 0 }),
    {
        Color { r: 0, g: 0, b: 0, a: 0 }
    }
}

// ----- hexadecimal text -----

/// The value of a hexadecimal digit, in either case.
pub open spec fn digit_value(c: char) -> Option<u8> {
    if '0' <= c <= '9' {
        Some((c as u8 - '0' as u8) as u8)
    } else if 'a' <= c <= 'f' {
        Some((c as u8 - 'a' as u8 + 10) as u8)
    } else if 'A' <= c <= 'F' {
        Some((c as u8 - 'A' as u8 + 10) as u8)
    } else {
        None
    }
}

/// The byte that two characters spell in base sixteen: two digits, or a plus
/// sign and one digit.
pub open spec fn pair_value(hi: char, lo: char) -> Option<u8> {
    match (digit_value(hi), digit_value(lo)) {
        (Some(h), Some(l)) => Some((16 * h + l) as u8),
        (None, Some(l)) => if hi == '+' {
            Some(l)
        } else {
            None
        },
        _ => None,
    }
}

/// The lower-case hexadecimal digit of a value below sixteen.
pub open spec fn hex_char(n: u8) -> char {
    if n < 10 {
        ('0' as u8 + n) as char
    } else {
        ('a' as u8 + n - 10) as char
    }
}

/// The text that spells the bytes, two lower-case digits each.
pub open spec fn bytes_text(bytes: Seq<u8>) -> Seq<char>
    decreases bytes.len(),
{
    if bytes.len() == 0 {
        Seq::empty()
    } else {
        bytes_text(bytes.drop_last()) + seq![hex_char(bytes.last() / 16), hex_char(bytes.last() % 16)]
    }
}

/// The six digits that spell three bytes.
pub open spec fn rgb_text(r: u8, g: u8, b: u8) -> Seq<char> {
    bytes_text(seq![r, g, b])
}

/// The eight digits that spell four bytes.
pub open spec fn rgba_text(r: u8, g: u8, b: u8, a: u8) -> Seq<char> {
    bytes_text(seq![r, g, b, a])
}

/// The value of a hexadecimal digit, or nothing for any other character.
pub fn hex_digit(c: char) -> (r: Option<u8>)
    ensures
        r == digit_value(c),
        r matches Some(v) ==> v < 16,
{
    match c {
        '0' => Some(0),
        '1' => Some(1),
        '2' => Some(2),
        '3' => Some(3),
        '4' => Some(4),
        '5' => Some(5),
        '6' => Some(6),
        '7' => Some(7),
        '8' => Some(8),
        '9' => Some(9),
        'a' | 'A' => Some(10),
        'b' | 'B' => Some(11),
        'c' | 'C' => Some(12),
        'd' | 'D' => Some(13),
        'e' | 'E' => Some(14),
        'f' | 'F' => Some(15),
        _ => None,
    }
}

/// The byte that two characters spell, or nothing if they spell none.
pub fn hex_pair(hi: char, lo: char) -> (r: Option<u8>)
    ensures
        r == pair_value(hi, lo),
{
    match (hex_digit(hi), hex_digit(lo)) {
        (Some(h), Some(l)) => Some(16 * h + l),
        (None, Some(l)) => if hi == '+' {
            Some(l)
        } else {
            None
        },
        _ => None,
    }
}

/// The red, green and blue bytes that six hexadecimal digits spell, with a
/// full alpha byte, or nothing if a pair spells no byte.
pub fn hex_to_rgba(hex: [char; 6]) -> (r: Option<(u8, u8, u8, u8)>)
    ensures
        r == match (pair_value(hex@[0], hex@[1]), pair_value(hex@[2], hex@[3]), pair_value(
            hex@[4],
            hex@[5],
        )) {
            (Some(r), Some(g), Some(b)) => Some((r, g, b, 255u8)),
            _ => None,
        },
{
    let r = hex_pair(hex[0], hex[1]);
    let g = hex_pair(hex[2], hex[3]);
    let b = hex_pair(hex[4], hex[5]);
    match (r, g, b) {
        (Some(r), Some(g), Some(b)) => Some((r, g, b, 255)),
        _ => None,
    }
}

/// The red, green, blue and alpha bytes that eight hexadecimal digits spell,
/// or nothing if a pair spells no byte.
pub fn hexa_to_rgba(hex: [char; 8]) -> (r: Option<(u8, u8, u8, u8)>)
    ensures
        r == match (
            pair_value(hex@[0], hex@[1]),
            pair_value(hex@[2], hex@[3]),
            pair_value(hex@[4], hex@[5]),
            pair_value(hex@[6], hex@[7]),
        ) {
            (Some(r), Some(g), Some(b), Some(a)) => Some((r, g, b, a)),
            _ => None,
        },
{
    let r = hex_pair(hex[0], hex[1]);
    let g = hex_pair(hex[2], hex[3]);
    let b = hex_pair(hex[4], hex[5]);
    let a = hex_pair(hex[6], hex[7]);
    match (r, g, b, a) {
        (Some(r), Some(g), Some(b), Some(a)) => Some((r, g, b, a)),
        _ => None,
    }
}

/// The lower-case hexadecimal digit of `n`, as text.
fn digit_text(n: u8) -> (s: &'static str)
    requires
        n < 16,
    ensures
        s@ == seq![hex_char(n)],
{
    proof {
        reveal_strlit("0");
        reveal_strlit("1");
        reveal_strlit("2");
        reveal_strlit("3");
        reveal_strlit("4");
        reveal_strlit("5");
        reveal_strlit("6");
        reveal_strlit("7");
        reveal_strlit("8");
        reveal_strlit("9");
        reveal_strlit("a");
        reveal_strlit("b");
        reveal_strlit("c");
        reveal_strlit("d");
        reveal_strlit("e");
        reveal_strlit("f");
    }
    let s = match n {
        0 => "0",
        1 => "1",
        2 => "2",
        3 => "3",
        4 => "4",
        5 => "5",
        6 => "6",
        7 => "7",
        8 => "8",
        9 => "9",
        10 => "a",
        11 => "b",
        12 => "c",
        13 => "d",
        14 => "e",
        _ => "f",
    };
    proof {
        assert(s@ =~= seq![hex_char(n)]);
    }
    s
}

/// Spells bytes as text, two lower-case hexadecimal digits each.
pub fn encode_hex(bytes: &Vec<u8>) -> (s: String)
    ensures
        s@ == bytes_text(bytes@),
{
    let mut s = String::new();
    let mut i: usize = 0;
    while i < bytes.len()
        invariant
            0 <= i <= bytes@.len(),
            s@ == bytes_text(bytes@.take(i as int)),
        decreases bytes@.len() - i,
    {
        let b = bytes[i];
        let ghost before = s@;
        s.append(digit_text(b / 16));
        s.append(digit_text(b % 16));
        proof {
            let next = bytes@.take(i + 1);
            assert(next.drop_last() =~= bytes@.take(i as int));
            assert(next.last() == b);
            assert(s@ =~= before + seq![hex_char(b / 16), hex_char(b % 16)]);
        }
        i = i + 1;
    }
    proof {
        assert(bytes@.take(bytes@.len() as int) =~= bytes@);
    }
    s
}

// ----- colors -----

impl Color {
    /// The channels in order: red, green, blue, alpha.
    pub open spec fn lanes(self) -> Seq<u64> {
        seq![self.r, self.g, self.b, self.a]
    }

    /// Whether a color can be made from `v`: hexadecimal text must spell a
    /// byte with every pair.
    pub open spec fn makes(v: ColorValue) -> bool {
        match v {
            ColorValue::RGB(_, _, _) => true,
            ColorValue::RGBA(_, _, _, _) => true,
            ColorValue::HEX(hex) => pair_value(hex@[0], hex@[1]).is_some() && pair_value(
                hex@[2],
                hex@[3],
            ).is_some() && pair_value(hex@[4], hex@[5]).is_some(),
            ColorValue::HEXA(hex) => pair_value(hex@[0], hex@[1]).is_some() && pair_value(
                hex@[2],
                hex@[3],
            ).is_some() && pair_value(hex@[4], hex@[5]).is_some() && pair_value(
                hex@[6],
                hex@[7],
            ).is_some(),
        }
    }

    /// Makes a color. Three channels get an alpha of one. The bytes that
    /// hexadecimal text spells are turned into channels by `normalize`, which
    /// is the caller's to supply; six digits get an alpha of one.
    pub fn new<N: Fn(u8) -> u64>(v: ColorValue, normalize: &N) -> (c: Color)
        requires
            Self::makes(v),
            forall|x: u8| call_requires(*normalize, (x,)),
        ensures
            match v {
                ColorValue::RGB(r, g, b) => c == (Color { r, g, b, a: ONE }),
                ColorValue::RGBA(r, g, b, a) => c == (Color { r, g, b, a }),
                ColorValue::HEX(hex) => {
                    &&& call_ensures(*normalize, (pair_value(hex@[0], hex@[1]).unwrap(),), c.r)
                    &&& call_ensures(*normalize, (pair_value(hex@[2], hex@[3]).unwrap(),), c.g)
                    &&& call_ensures(*normalize, (pair_value(hex@[4], hex@[5]).unwrap(),), c.b)
                    &&& c.a == ONE
                },
                ColorValue::HEXA(hex) => {
                    &&& call_ensures(*normalize, (pair_value(hex@[0], hex@[1]).unwrap(),), c.r)
                    &&& call_ensures(*normalize, (pair_value(hex@[2], hex@[3]).unwrap(),), c.g)
                    &&& call_ensures(*normalize, (pair_value(hex@[4], hex@[5]).unwrap(),), c.b)
                    &&& call_ensures(*normalize, (pair_value(hex@[6], hex@[7]).unwrap(),), c.a)
                },
            },
    {
        match v {
            ColorValue::RGB(r, g, b) => Color { r, g, b, a: ONE },
            ColorValue::RGBA(r, g, b, a) => Color { r, g, b, a },
            ColorValue::HEX(hex) => {
                match hex_to_rgba(hex) {
                    Some((r, g, b, _)) => Color {
                        r: normalize(r),
                        g: normalize(g),
                        b: normalize(b),
                        a: ONE,
                    },
                    None => Color::default(),
                }
            },
            ColorValue::HEXA(hex) => {
                match hexa_to_rgba(hex) {
                    Some((r, g, b, a)) => Color {
                        r: normalize(r),
                        g: normalize(g),
                        b: normalize(b),
                        a: normalize(a),
                    },
                    None => Color::default(),
                }
            },
        }
    }

    pub fn r(&self) -> (x: u64)
        ensures
            x == self.r,
    {
        self.r
    }

    pub fn g(&self) -> (x: u64)
        ensures
            x == self.g,
    {
        self.g
    }

    pub fn b(&self) -> (x: u64)
        ensures
            x == self.b,
    {
        self.b
    }

    pub fn a(&self) -> (x: u64)
        ensures
            x == self.a,
    {
        self.a
    }

    pub fn rgb(&self) -> (t: (u64, u64, u64))
        ensures
            t == (self.r, self.g, self.b),
    {
        (self.r(), self.g(), self.b())
    }

    pub fn rgba(&self) -> (t: (u64, u64, u64, u64))
        ensures
            t == (self.r, self.g, self.b, self.a),
    {
        (self.r(), self.g(), self.b(), self.a())
    }

    /// The color as six lower-case hexadecimal digits. `quantize` turns a
    /// channel into a byte and is the caller's to supply.
    pub fn hex<Q: Fn(u64) -> u8>(&self, quantize: &Q) -> (s: String)
        requires
            forall|x: u64| call_requires(*quantize, (x,)),
        ensures
            exists|r: u8, g: u8, b: u8|
                {
                    &&& call_ensures(*quantize, (self.r,), r)
                    &&& call_ensures(*quantize, (self.g,), g)
                    &&& call_ensures(*quantize, (self.b,), b)
                    &&& #[trigger] rgb_text(r, g, b) == s@
                },
    {
        let mut bytes: Vec<u8> = Vec::new();
        bytes.push(quantize(self.r));
        bytes.push(quantize(self.g));
        bytes.push(quantize(self.b));
        let s = encode_hex(&bytes);
        proof {
            assert(bytes@ =~= seq![bytes@[0], bytes@[1], bytes@[2]]);
            assert(rgb_text(bytes@[0], bytes@[1], bytes@[2]) == s@);
        }
        s
    }

    /// The color as eight lower-case hexadecimal digits, alpha last.
    pub fn hexa<Q: Fn(u64) -> u8>(&self, quantize: &Q) -> (s: String)
        requires
            forall|x: u64| call_requires(*quantize, (x,)),
        ensures
            exists|r: u8, g: u8, b: u8, a: u8|
                {
                    &&& call_ensures(*quantize, (self.r,), r)
                    &&& call_ensures(*quantize, (self.g,), g)
                    &&& call_ensures(*quantize, (self.b,), b)
                    &&& call_ensures(*quantize, (self.a,), a)
                    &&& #[trigger] rgba_text(r, g, b, a) == s@
                },
    {
        let mut bytes: Vec<u8> = Vec::new();
        bytes.push(quantize(self.r));
        bytes.push(quantize(self.g));
        bytes.push(quantize(self.b));
        bytes.push(quantize(self.a));
        let s = encode_hex(&bytes);
        proof {
            assert(bytes@ =~= seq![bytes@[0], bytes@[1], bytes@[2], bytes@[3]]);
            assert(rgba_text(bytes@[0], bytes@[1], bytes@[2], bytes@[3]) == s@);
        }
        s
    }

    /// Every channel passed through `clamp`.
    pub fn clamp<C: Fn(u64) -> u64>(&self, clamp: &C) -> (c: Color)
        requires
            forall|x: u64| call_requires(*clamp, (x,)),
        ensures
            call_ensures(*clamp, (self.r,), c.r),
            call_ensures(*clamp, (self.g,), c.g),
            call_ensures(*clamp, (self.b,), c.b),
            call_ensures(*clamp, (self.a,), c.a),
    {
        Color { r: clamp(self.r), g: clamp(self.g), b: clamp(self.b), a: clamp(self.a) }
    }

    /// One channel everywhere.
    pub fn splat(t: u64) -> (c: Color)
        ensures
            c == (Color { r: t, g: t, b: t, a: t }),
    {
        Color { r: t, g: t, b: t, a: t }
    }

    /// `c` is `lhs` and `rhs` combined channel by channel, each channel
    /// clamped once after the operation.
    pub open spec fn zipped<F: Fn(Operator, u64, u64) -> u64, C: Fn(u64) -> u64>(
        op: Operator,
        lhs: Color,
        rhs: Color,
        scalar: F,
        clamp: C,
        c: Color,
    ) -> bool {
        &&& lane_computed(scalar, clamp, op, true, lhs.r, rhs.r, c.r)
        &&& lane_computed(scalar, clamp, op, true, lhs.g, rhs.g, c.g)
        &&& lane_computed(scalar, clamp, op, true, lhs.b, rhs.b, c.b)
        &&& lane_computed(scalar, clamp, op, true, lhs.a, rhs.a, c.a)
    }

    /// Combines two colors channel by channel and clamps the result.
    pub fn zip<F: Fn(Operator, u64, u64) -> u64, C: Fn(u64) -> u64>(
        op: Operator,
        lhs: Color,
        rhs: Color,
        scalar: &F,
        clamp: &C,
    ) -> (c: Color)
        requires
            forall|o: Operator, x: u64, y: u64| call_requires(*scalar, (o, x, y)),
            forall|x: u64| call_requires(*clamp, (x,)),
        ensures
            Self::zipped(op, lhs, rhs, *scalar, *clamp, c),
    {
        Color {
            r: compute_lane(op, true, lhs.r, rhs.r, scalar, clamp),
            g: compute_lane(op, true, lhs.g, rhs.g, scalar, clamp),
            b: compute_lane(op, true, lhs.b, rhs.b, scalar, clamp),
            a: compute_lane(op, true, lhs.a, rhs.a, scalar, clamp),
        }
    }

    /// The inverse color: each of red, green and blue taken from one. Alpha
    /// stays, and nothing is clamped.
    pub fn neg<F: Fn(Operator, u64, u64) -> u64>(self, scalar: &F) -> (c: Color)
        requires
            forall|o: Operator, x: u64, y: u64| call_requires(*scalar, (o, x, y)),
        ensures
            call_ensures(*scalar, (Operator::Sub, ONE, self.r), c.r),
            call_ensures(*scalar, (Operator::Sub, ONE, self.g), c.g),
            call_ensures(*scalar, (Operator::Sub, ONE, self.b), c.b),
            c.a == self.a,
    {
        Color {
            r: scalar(Operator::Sub, ONE, self.r),
            g: scalar(Operator::Sub, ONE, self.g),
            b: scalar(Operator::Sub, ONE, self.b),
            a: self.a,
        }
    }

    /// The sum of two colors, clamped.
    pub fn add<F: Fn(Operator, u64, u64) -> u64, C: Fn(u64) -> u64>(
        self,
        rhs: Color,
        scalar: &F,
        clamp: &C,
    ) -> (c: Color)
        requires
            forall|o: Operator, x: u64, y: u64| call_requires(*scalar, (o, x, y)),
            forall|x: u64| call_requires(*clamp, (x,)),
        ensures
            Self::zipped(Operator::Add, self, rhs, *scalar, *clamp, c),
    {
        Self::zip(Operator::Add, self, rhs, scalar, clamp)
    }

    /// The difference of two colors, clamped.
    pub fn sub<F: Fn(Operator, u64, u64) -> u64, C: Fn(u64) -> u64>(
        self,
        rhs: Color,
        scalar: &F,
        clamp: &C,
    ) -> (c: Color)
        requires
            forall|o: Operator, x: u64, y: u64| call_requires(*scalar, (o, x, y)),
            forall|x: u64| call_requires(*clamp, (x,)),
        ensures
            Self::zipped(Operator::Sub, self, rhs, *scalar, *clamp, c),
    {
        Self::zip(Operator::Sub, self, rhs, scalar, clamp)
    }

    /// The product of two colors, channel by channel, clamped.
    pub fn mul<F: Fn(Operator, u64, u64) -> u64, C: Fn(u64) -> u64>(
        self,
        rhs: Color,
        scalar: &F,
        clamp: &C,
    ) -> (c: Color)
        requires
            forall|o: Operator, x: u64, y: u64| call_requires(*scalar, (o, x, y)),
            forall|x: u64| call_requires(*clamp, (x,)),
        ensures
            Self::zipped(Operator::Mul, self, rhs, *scalar, *clamp, c),
    {
        Self::zip(Operator::Mul, self, rhs, scalar, clamp)
    }

    /// The quotient of two colors, channel by channel, clamped.
    pub fn div<F: Fn(Operator, u64, u64) -> u64, C: Fn(u64) -> u64>(
        self,
        rhs: Color,
        scalar: &F,
        clamp: &C,
    ) -> (c: Color)
        requires
            forall|o: Operator, x: u64, y: u64| call_requires(*scalar, (o, x, y)),
            forall|x: u64| call_requires(*clamp, (x,)),
        ensures
            Self::zipped(Operator::Div, self, rhs, *scalar, *clamp, c),
    {
        Self::zip(Operator::Div, self, rhs, scalar, clamp)
    }

    /// The color with every channel multiplied by `t`.
    pub fn mul_scalar<F: Fn(Operator, u64, u64) -> u64, C: Fn(u64) -> u64>(
        self,
        t: u64,
        scalar: &F,
        clamp: &C,
    ) -> (c: Color)
        requires
            forall|o: Operator, x: u64, y: u64| call_requires(*scalar, (o, x, y)),
            forall|x: u64| call_requires(*clamp, (x,)),
        ensures
            Self::zipped(
                Operator::Mul,
                self,
                Color { r: t, g: t, b: t, a: t },
                *scalar,
                *clamp,
                c,
            ),
    {
        Self::zip(Operator::Mul, self, Color::splat(t), scalar, clamp)
    }

    /// The color with `t` multiplied by every channel.
    pub fn scalar_mul<F: Fn(Operator, u64, u64) -> u64, C: Fn(u64) -> u64>(
        t: u64,
        rhs: Color,
        scalar: &F,
        clamp: &C,
    ) -> (c: Color)
        requires
            forall|o: Operator, x: u64, y: u64| call_requires(*scalar, (o, x, y)),
            forall|x: u64| call_requires(*clamp, (x,)),
        ensures
            Self::zipped(
                Operator::Mul,
                Color { r: t, g: t, b: t, a: t },
                rhs,
                *scalar,
                *clamp,
                c,
            ),
    {
        Self::zip(Operator::Mul, Color::splat(t), rhs, scalar, clamp)
    }

    /// The color with every channel divided by `t`.
    pub fn div_scalar<F: Fn(Operator, u64, u64) -> u64, C: Fn(u64) -> u64>(
        self,
        t: u64,
        scalar: &F,
        clamp: &C,
    ) -> (c: Color)
        requires
            forall|o: Operator, x: u64, y: u64| call_requires(*scalar, (o, x, y)),
            forall|x: u64| call_requires(*clamp, (x,)),
        ensures
            Self::zipped(
                Operator::Div,
                self,
                Color { r: t, g: t, b: t, a: t },
                *scalar,
                *clamp,
                c,
            ),
    {
        Self::zip(Operator::Div, self, Color::splat(t), scalar, clamp)
    }

    /// The color with `t` divided by every channel.
    pub fn scalar_div<F: Fn(Operator, u64, u64) -> u64, C: Fn(u64) -> u64>(
        t: u64,
        rhs: Color,
        scalar: &F,
        clamp: &C,
    ) -> (c: Color)
        requires
            forall|o: Operator, x: u64, y: u64| call_requires(*scalar, (o, x, y)),
            forall|x: u64| call_requires(*clamp, (x,)),
        ensures
            Self::zipped(
                Operator::Div,
                Color { r: t, g: t, b: t, a: t },
                rhs,
                *scalar,
                *clamp,
                c,
            ),
    {
        Self::zip(Operator::Div, Color::splat(t), rhs, scalar, clamp)
    }

    /// Adds `rhs` to the color in place.
    pub fn add_assign<F: Fn(Operator, u64, u64) -> u64, C: Fn(u64) -> u64>(
        &mut self,
        rhs: Color,
        scalar: &F,
        clamp: &C,
    )
        requires
            forall|o: Operator, x: u64, y: u64| call_requires(*scalar, (o, x, y)),
            forall|x: u64| call_requires(*clamp, (x,)),
        ensures
            Self::zipped(Operator::Add, *old(self), rhs, *scalar, *clamp, *final(self)),
    {
        *self = Self::zip(Operator::Add, *self, rhs, scalar, clamp);
    }

    /// Takes `rhs` from the color in place.
    pub fn sub_assign<F: Fn(Operator, u64, u64) -> u64, C: Fn(u64) -> u64>(
        &mut self,
        rhs: Color,
        scalar: &F,
        clamp: &C,
    )
        requires
            forall|o: Operator, x: u64, y: u64| call_requires(*scalar, (o, x, y)),
            forall|x: u64| call_requires(*clamp, (x,)),
        ensures
            Self::zipped(Operator::Sub, *old(self), rhs, *scalar, *clamp, *final(self)),
    {
        *self = Self::zip(Operator::Sub, *self, rhs, scalar, clamp);
    }

    /// Multiplies the color by `rhs` in place.
    pub fn mul_assign<F: Fn(Operator, u64, u64) -> u64, C: Fn(u64) -> u64>(
        &mut self,
        rhs: Color,
        scalar: &F,
        clamp: &C,
    )
        requires
            forall|o: Operator, x: u64, y: u64| call_requires(*scalar, (o, x, y)),
            forall|x: u64| call_requires(*clamp, (x,)),
        ensures
            Self::zipped(Operator::Mul, *old(self), rhs, *scalar, *clamp, *final(self)),
    {
        *self = Self::zip(Operator::Mul, *self, rhs, scalar, clamp);
    }

    /// Divides every channel of the color by `t` in place.
    pub fn div_assign<F: Fn(Operator, u64, u64) -> u64, C: Fn(u64) -> u64>(
        &mut self,
        t: u64,
        scalar: &F,
        clamp: &C,
    )
        requires
            forall|o: Operator, x: u64, y: u64| call_requires(*scalar, (o, x, y)),
            forall|x: u64| call_requires(*clamp, (x,)),
        ensures
            Self::zipped(
                Operator::Div,
                *old(self),
                Color { r: t, g: t, b: t, a: t },
                *scalar,
                *clamp,
                *final(self),
            ),
    {
        *self = Self::zip(Operator::Div, *self, Color::splat(t), scalar, clamp);
    }
}

} // verus!
