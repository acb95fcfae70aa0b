use dataflow_graph::types::color::{
    encode_hex, hex_digit, hex_pair, hex_to_rgba, hexa_to_rgba, Color, ColorValue, ONE,
};
use dataflow_graph::types::data_type::Operator;

fn bits(x: f64) -> u64 {
    x.to_bits()
}

fn floats3(t: (u64, u64, u64)) -> (f64, f64, f64) {
    (f64::from_bits(t.0), f64::from_bits(t.1), f64::from_bits(t.2))
}

fn floats4(t: (u64, u64, u64, u64)) -> (f64, f64, f64, f64) {
    (f64::from_bits(t.0), f64::from_bits(t.1), f64::from_bits(t.2), f64::from_bits(t.3))
}

fn scalar(op: Operator, a: u64, b: u64) -> u64 {
    let x = f64::from_bits(a);
    let y = f64::from_bits(b);
    let z = match op {
        Operator::Add => x + y,
        Operator::Sub => x - y,
        Operator::Mul => x * y,
        Operator::Div => x / y,
    };
    z.to_bits()
}

fn clamp(a: u64) -> u64 {
    f64::from_bits(a).min(1.0).max(0.0).to_bits()
}

fn normalize(b: u8) -> u64 {
    (b as f64 / 255.0).to_bits()
}

fn quantize(a: u64) -> u8 {
    (f64::from_bits(a) * 255.0) as u8
}

#[test]
fn create_color() {
    let rgb_val = ColorValue::RGB(bits(0.5), bits(0.25), bits(0.0));
    let rgba_val = ColorValue::RGBA(bits(0.5), bits(0.25), bits(0.0), bits(0.75));
    let hex_chars: [char; 6] = ['1', '9', '3', '2', '9', '6'];
    let hex_val = ColorValue::HEX(hex_chars);
    let hexa_chars: [char; 8] = ['1', '9', '3', '2', '9', '6', 'C', '8'];
    let hexa_val = ColorValue::HEXA(hexa_chars);

    let rgb_col = Color::new(rgb_val, &normalize);
    let rgba_col = Color::new(rgba_val, &normalize);
    let hex_col = Color::new(hex_val, &normalize);
    let hexa_col = Color::new(hexa_val, &normalize);

    assert_eq!((0.5, 0.25, 0.0), floats3(rgb_col.rgb()));
    assert_eq!((0.5, 0.25, 0.0, 0.75), floats4(rgba_col.rgba()));
    assert_eq!("193296", hex_col.hex(&quantize));
    assert_eq!("193296c8", hexa_col.hexa(&quantize));
}

#[test]
fn neg_color() {
    let rgba_val = ColorValue::RGBA(bits(0.5), bits(0.25), bits(0.0), bits(1.0));
    let rgba_col = Color::new(rgba_val, &normalize);
    assert_eq!((0.5, 0.75, 1.0, 1.0), floats4(rgba_col.neg(&scalar).rgba()));
}

#[test]
fn color_ops() {
    let mut add_col =
        Color::new(ColorValue::RGBA(bits(0.25), bits(0.0), bits(0.5), bits(1.0)), &normalize);
    let add_rhs = add_col;
    add_col.add_assign(add_rhs, &scalar, &clamp);
    assert_eq!((0.5, 0.0, 1.0, 1.0), floats4(add_col.rgba()));

    let mut sub_col =
        Color::new(ColorValue::RGBA(bits(0.25), bits(0.0), bits(0.5), bits(1.0)), &normalize);
    sub_col.sub_assign(
        Color::new(ColorValue::RGBA(bits(0.1), bits(0.0), bits(0.25), bits(0.5)), &normalize),
        &scalar,
        &clamp,
    );
    assert_eq!((0.15, 0.0, 0.25, 0.5), floats4(sub_col.rgba()));

    let mut mul_col =
        Color::new(ColorValue::RGBA(bits(0.25), bits(0.0), bits(0.5), bits(1.0)), &normalize);
    let mul_rhs = mul_col;
    mul_col.mul_assign(mul_rhs, &scalar, &clamp);
    assert_eq!((0.0625, 0.0, 0.25, 1.0), floats4(mul_col.rgba()));

    let mut div_col =
        Color::new(ColorValue::RGBA(bits(0.25), bits(0.0), bits(0.5), bits(1.0)), &normalize);
    div_col.div_assign(bits(2.0), &scalar, &clamp);
    assert_eq!((0.125, 0.0, 0.25, 0.5), floats4(div_col.rgba()));
}

#[test]
fn one_is_the_pattern_of_one() {
    assert_eq!(f64::from_bits(ONE), 1.0);
    assert_eq!(ONE, 1.0f64.to_bits());
}

#[test]
fn rgb_gets_full_alpha() {
    let c = Color::new(ColorValue::RGB(bits(0.2), bits(0.4), bits(0.6)), &normalize);
    assert_eq!(c.a(), ONE);
    assert_eq!(f64::from_bits(c.r()), 0.2);
    assert_eq!(f64::from_bits(c.g()), 0.4);
    assert_eq!(f64::from_bits(c.b()), 0.6);
}

#[test]
fn hex_gets_full_alpha_and_normalized_channels() {
    let c = Color::new(ColorValue::HEX(['f', 'f', '0', '0', '3', '3']), &normalize);
    assert_eq!(floats4(c.rgba()), (1.0, 0.0, 51.0 / 255.0, 1.0));
}

#[test]
fn default_color_is_transparent_black() {
    let c = Color::default();
    assert_eq!(floats4(c.rgba()), (0.0, 0.0, 0.0, 0.0));
    assert_eq!(c, Color { r: 0, g: 0, b: 0, a: 0 });
}

#[test]
fn color_sum_is_clamped_per_channel() {
    let a = Color::new(ColorValue::RGBA(bits(0.75), bits(0.5), bits(1.0), bits(0.25)), &normalize);
    let b = Color::new(ColorValue::RGBA(bits(0.5), bits(0.25), bits(1.0), bits(0.25)), &normalize);
    let sum = a.add(b, &scalar, &clamp);
    assert_eq!(floats4(sum.rgba()), (1.0, 0.75, 1.0, 0.5));
}

#[test]
fn color_difference_is_clamped_at_zero() {
    let a = Color::new(ColorValue::RGBA(bits(0.25), bits(0.5), bits(0.0), bits(1.0)), &normalize);
    let b = Color::new(ColorValue::RGBA(bits(0.5), bits(0.25), bits(1.0), bits(0.5)), &normalize);
    let d = a.sub(b, &scalar, &clamp);
    assert_eq!(floats4(d.rgba()), (0.0, 0.25, 0.0, 0.5));
}

#[test]
fn color_product_and_quotient() {
    let a = Color::new(ColorValue::RGBA(bits(0.5), bits(0.5), bits(1.0), bits(1.0)), &normalize);
    let b = Color::new(ColorValue::RGBA(bits(0.5), bits(0.25), bits(0.5), bits(2.0)), &normalize);
    assert_eq!(floats4(a.mul(b, &scalar, &clamp).rgba()), (0.25, 0.125, 0.5, 1.0));
    assert_eq!(floats4(a.div(b, &scalar, &clamp).rgba()), (1.0, 1.0, 1.0, 0.5));
}

#[test]
fn color_with_scalar() {
    let c = Color::new(ColorValue::RGBA(bits(0.25), bits(0.5), bits(1.0), bits(0.125)), &normalize);
    assert_eq!(floats4(c.mul_scalar(bits(2.0), &scalar, &clamp).rgba()), (0.5, 1.0, 1.0, 0.25));
    assert_eq!(
        floats4(Color::scalar_mul(bits(2.0), c, &scalar, &clamp).rgba()),
        (0.5, 1.0, 1.0, 0.25)
    );
    assert_eq!(floats4(c.div_scalar(bits(2.0), &scalar, &clamp).rgba()), (0.125, 0.25, 0.5, 0.0625));
    assert_eq!(
        floats4(Color::scalar_div(bits(0.125), c, &scalar, &clamp).rgba()),
        (0.5, 0.25, 0.125, 1.0)
    );
}

#[test]
fn clamp_touches_every_channel() {
    let c = Color { r: bits(1.5), g: bits(-0.5), b: bits(0.5), a: bits(2.0) };
    assert_eq!(floats4(c.clamp(&clamp).rgba()), (1.0, 0.0, 0.5, 1.0));
}

#[test]
fn splat_repeats_the_channel() {
    assert_eq!(Color::splat(7), Color { r: 7, g: 7, b: 7, a: 7 });
}

#[test]
fn hex_digits_in_both_cases() {
    assert_eq!(hex_digit('0'), Some(0));
    assert_eq!(hex_digit('9'), Some(9));
    assert_eq!(hex_digit('a'), Some(10));
    assert_eq!(hex_digit('F'), Some(15));
    assert_eq!(hex_digit('g'), None);
    assert_eq!(hex_digit('+'), None);
    assert_eq!(hex_digit('é'), None);
}

#[test]
fn hex_pairs_agree_with_the_standard_parser() {
    let sample = ['0', '7', '9', 'a', 'c', 'f', 'A', 'F', 'g', 'G', '+', '-', ' ', 'x', 'é'];
    for hi in sample {
        for lo in sample {
            let text: String = [hi, lo].iter().collect();
            let expected = u8::from_str_radix(&text, 16).ok();
            assert_eq!(hex_pair(hi, lo), expected);
        }
    }
}

#[test]
fn hex_pair_values() {
    assert_eq!(hex_pair('1', '9'), Some(0x19));
    assert_eq!(hex_pair('f', 'F'), Some(255));
    assert_eq!(hex_pair('+', 'f'), Some(15));
    assert_eq!(hex_pair('-', '1'), None);
    assert_eq!(hex_pair('1', '+'), None);
    assert_eq!(hex_pair('+', '+'), None);
}

#[test]
fn hex_text_to_bytes() {
    assert_eq!(hex_to_rgba(['1', '9', '3', '2', '9', '6']), Some((0x19, 0x32, 0x96, 255)));
    assert_eq!(hex_to_rgba(['F', 'f', '0', '0', 'a', 'B']), Some((255, 0, 0xab, 255)));
    assert_eq!(hex_to_rgba(['1', '9', '3', '2', '9', 'z']), None);
    assert_eq!(
        hexa_to_rgba(['1', '9', '3', '2', '9', '6', 'C', '8']),
        Some((0x19, 0x32, 0x96, 0xc8))
    );
    assert_eq!(hexa_to_rgba(['1', '9', '3', '2', '9', '6', 'C', ' ']), None);
}

#[test]
fn bytes_to_hex_text() {
    assert_eq!(encode_hex(&vec![]), "");
    assert_eq!(encode_hex(&vec![0]), "00");
    assert_eq!(encode_hex(&vec![0x0f, 0xa0, 0xff]), "0fa0ff");
    assert_eq!(encode_hex(&vec![0x19, 0x32, 0x96, 0xc8]), "193296c8");
}

#[test]
fn bytes_to_hex_text_agrees_with_formatting() {
    for b in 0..=255u8 {
        assert_eq!(encode_hex(&vec![b]), format!("{:02X}", b).to_lowercase());
    }
}
