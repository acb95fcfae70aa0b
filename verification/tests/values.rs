use dataflow_graph::types::color::Color;
use dataflow_graph::types::data_type::{compute_lane, DataType, DataValue, EvalError, Operator};
use dataflow_graph::types::vector::{Point3, Vec3};

fn bits(x: f64) -> u64 {
    x.to_bits()
}

fn scalar(op: Operator, a: u64, b: u64) -> u64 {
    let x = f64::from_bits(a);
    let y = f64::from_bits(b);
    let z = match op {
        Operator::Add => x + y,
        Operator::Sub => x - y,
        Operator::Mul => x * y,
        Operator::Div => x / y,
    };
    z.to_bits()
}

fn clamp(a: u64) -> u64 {
    f64::from_bits(a).min(1.0).max(0.0).to_bits()
}

fn color(r: f64, g: f64, b: f64, a: f64) -> DataValue {
    DataValue::Color(Color { r: bits(r), g: bits(g), b: bits(b), a: bits(a) })
}

fn vector(x: f64, y: f64, z: f64) -> DataValue {
    DataValue::Vector3(Vec3::new(bits(x), bits(y), bits(z)))
}

fn point(x: f64, y: f64, z: f64) -> DataValue {
    DataValue::Point3(Point3::new(bits(x), bits(y), bits(z)))
}

fn number(x: f64) -> DataValue {
    DataValue::Number(bits(x))
}

#[test]
fn zero_values_of_every_kind() {
    assert_eq!(DataValue::default(DataType::Number), number(0.0));
    assert_eq!(DataValue::default(DataType::Boolean), DataValue::Boolean(false));
    assert_eq!(DataValue::default(DataType::Color), color(0.0, 0.0, 0.0, 0.0));
    assert_eq!(DataValue::default(DataType::Vector3), vector(0.0, 0.0, 0.0));
    assert_eq!(DataValue::default(DataType::Point3), point(0.0, 0.0, 0.0));
}

#[test]
fn kinds_and_their_names() {
    assert_eq!(number(1.0).kind(), DataType::Number);
    assert_eq!(DataValue::Boolean(true).kind(), DataType::Boolean);
    assert_eq!(color(0.0, 0.0, 0.0, 1.0).kind(), DataType::Color);
    assert_eq!(vector(1.0, 2.0, 3.0).kind(), DataType::Vector3);
    assert_eq!(point(1.0, 2.0, 3.0).kind(), DataType::Point3);
    assert_eq!(number(1.0).kind_name(), "Number");
    assert_eq!(DataValue::Boolean(true).kind_name(), "Boolean");
    assert_eq!(color(0.0, 0.0, 0.0, 1.0).kind_name(), "Color");
    assert_eq!(vector(1.0, 2.0, 3.0).kind_name(), "Vector3");
    assert_eq!(point(1.0, 2.0, 3.0).kind_name(), "Point3");
    assert_eq!(DataType::Point3.name(), "Point3");
}

#[test]
fn operator_symbols() {
    assert_eq!(Operator::Add.symbol(), "+");
    assert_eq!(Operator::Sub.symbol(), "-");
    assert_eq!(Operator::Mul.symbol(), "*");
    assert_eq!(Operator::Div.symbol(), "/");
}

#[test]
fn numbers_combine() {
    assert_eq!(number(1.5).add(number(2.25), &scalar, &clamp), Ok(number(3.75)));
    assert_eq!(number(1.5).sub(number(2.25), &scalar, &clamp), Ok(number(-0.75)));
    assert_eq!(number(1.5).mul(number(2.0), &scalar, &clamp), Ok(number(3.0)));
    assert_eq!(number(1.5).div(number(2.0), &scalar, &clamp), Ok(number(0.75)));
}

#[test]
fn numbers_are_not_clamped() {
    assert_eq!(number(0.75).add(number(0.75), &scalar, &clamp), Ok(number(1.5)));
    assert_eq!(number(0.25).sub(number(0.75), &scalar, &clamp), Ok(number(-0.5)));
}

#[test]
fn vectors_and_points_combine_by_component() {
    assert_eq!(
        vector(1.0, 2.0, 3.0).add(vector(0.5, 0.25, -3.0), &scalar, &clamp),
        Ok(vector(1.5, 2.25, 0.0))
    );
    assert_eq!(
        vector(1.0, 2.0, 3.0).mul(vector(2.0, 0.5, -1.0), &scalar, &clamp),
        Ok(vector(2.0, 1.0, -3.0))
    );
    assert_eq!(
        point(1.0, 2.0, 3.0).sub(point(0.5, 0.25, -3.0), &scalar, &clamp),
        Ok(point(0.5, 1.75, 6.0))
    );
    assert_eq!(
        point(1.0, 2.0, 3.0).div(point(2.0, 4.0, 0.5), &scalar, &clamp),
        Ok(point(0.5, 0.5, 6.0))
    );
}

#[test]
fn color_sum_is_clamped_once_after_the_operation() {
    assert_eq!(
        color(0.75, 0.5, 1.0, 0.25).add(color(0.5, 0.25, 1.0, 0.25), &scalar, &clamp),
        Ok(color(1.0, 0.75, 1.0, 0.5))
    );
    assert_eq!(
        color(0.25, 0.5, 0.0, 1.0).sub(color(0.5, 0.25, 1.0, 0.5), &scalar, &clamp),
        Ok(color(0.0, 0.25, 0.0, 0.5))
    );
}

#[test]
fn color_plus_number_is_a_type_mismatch() {
    assert_eq!(
        color(0.5, 0.5, 0.5, 1.0).add(number(1.0), &scalar, &clamp),
        Err(EvalError::TypeMismatch {
            op: Operator::Add,
            lhs: DataType::Color,
            rhs: DataType::Number
        })
    );
    assert_eq!(
        number(1.0).add(color(0.5, 0.5, 0.5, 1.0), &scalar, &clamp),
        Err(EvalError::TypeMismatch {
            op: Operator::Add,
            lhs: DataType::Number,
            rhs: DataType::Color
        })
    );
}

#[test]
fn booleans_never_combine() {
    assert_eq!(
        DataValue::Boolean(true).add(DataValue::Boolean(false), &scalar, &clamp),
        Err(EvalError::TypeMismatch {
            op: Operator::Add,
            lhs: DataType::Boolean,
            rhs: DataType::Boolean
        })
    );
    assert_eq!(
        DataValue::Boolean(true).mul(number(2.0), &scalar, &clamp),
        Err(EvalError::TypeMismatch {
            op: Operator::Mul,
            lhs: DataType::Boolean,
            rhs: DataType::Number
        })
    );
    assert_eq!(
        vector(1.0, 1.0, 1.0).div(DataValue::Boolean(true), &scalar, &clamp),
        Err(EvalError::TypeMismatch {
            op: Operator::Div,
            lhs: DataType::Vector3,
            rhs: DataType::Boolean
        })
    );
}

#[test]
fn the_error_names_the_operation() {
    assert_eq!(
        vector(1.0, 1.0, 1.0).sub(point(1.0, 1.0, 1.0), &scalar, &clamp),
        Err(EvalError::TypeMismatch {
            op: Operator::Sub,
            lhs: DataType::Vector3,
            rhs: DataType::Point3
        })
    );
    assert_eq!(
        DataValue::combine(Operator::Div, point(1.0, 1.0, 1.0), number(1.0), &scalar, &clamp),
        Err(EvalError::TypeMismatch {
            op: Operator::Div,
            lhs: DataType::Point3,
            rhs: DataType::Number
        })
    );
}

#[test]
fn every_pair_of_kinds() {
    let samples = [
        number(1.0),
        DataValue::Boolean(true),
        color(0.25, 0.25, 0.25, 0.25),
        vector(1.0, 2.0, 3.0),
        point(1.0, 2.0, 3.0),
    ];
    for l in samples {
        for r in samples {
            let kind = DataValue::result_kind(Operator::Add, &l, &r);
            let sum = l.add(r, &scalar, &clamp);
            if l.kind() == r.kind() && l.kind() != DataType::Boolean {
                assert_eq!(kind, Ok(l.kind()));
                assert_eq!(sum.map(|v| v.kind()), Ok(l.kind()));
            } else {
                let e = EvalError::TypeMismatch { op: Operator::Add, lhs: l.kind(), rhs: r.kind() };
                assert_eq!(kind, Err(e));
                assert_eq!(sum, Err(e));
            }
        }
    }
}

#[test]
fn a_lane_is_clamped_only_when_asked() {
    assert_eq!(compute_lane(Operator::Add, false, bits(0.75), bits(0.75), &scalar, &clamp), bits(1.5));
    assert_eq!(compute_lane(Operator::Add, true, bits(0.75), bits(0.75), &scalar, &clamp), bits(1.0));
}

#[test]
fn zero_vector_and_origin() {
    assert_eq!(Vec3::default(), Vec3 { x: 0, y: 0, z: 0 });
    assert_eq!(Point3::default(), Point3 { x: 0, y: 0, z: 0 });
}
