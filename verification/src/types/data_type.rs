use vstd::prelude::*;
use crate::types::color::Color;
use crate::types::vector::{Point3, Vec3};

verus! {

/// The data kinds a slot can carry.
#[derive(Clone, Copy, Debug, PartialEq, Eq, Structural)]
pub enum DataType {
    Number,
    Boolean,
    Color,
    Vector3,
    Point3,
}

/// The binary operations on values.
#[derive(Clone, Copy, Debug, PartialEq, Eq, Structural)]
pub enum Operator {
    Add,
    Sub,
    Mul,
    Div,
}

/// Why an operation on values was refused.
#[derive(Clone, Copy, Debug, PartialEq, Eq, Structural)]
pub enum EvalError {
    /// The operands are of different kinds, or one of them is a Boolean.
    TypeMismatch { op: Operator, lhs: DataType, rhs: DataType },
}

/// The scalar `out` is what the operation yields for the scalars `a` and `b`:
/// the result of `scalar`, passed through `clamp` once if the kind is a
/// clamped one. Scalars are binary64 bit patterns; what `scalar` and `clamp`
/// compute is the caller's matter.
pub open spec fn lane_computed<F: Fn(Operator, u64, u64) -> u64, C: Fn(u64) -> u64>(
    scalar: F,
    clamp: C,
    op: Operator,
    clamped: bool,
    a: u64,
    b: u64,
    out: u64,
) -> bool {
    if clamped {
        exists|raw: u64| #[trigger]
            call_ensures(scalar, (op, a, b), raw) && call_ensures(clamp, (raw,), out)
    } else {
        call_ensures(scalar, (op, a, b), out)
    }
}

/// Computes one scalar of a result.
pub fn compute_lane<F: Fn(Operator, u64, u64) -> u64, C: Fn(u64) -> u64>(
    op: Operator,
    clamped: bool,
    a: u64,
    b: u64,
    scalar: &F,
    clamp: &C,
) -> (out: u64)
    requires
        forall|o: Operator, x: u64, y: u64| call_requires(*scalar, (o, x, y)),
        forall|x: u64| call_requires(*clamp, (x,)),
    ensures
        lane_computed(*scalar, *clamp, op, clamped, a, b, out),
{
    let raw = scalar(op, a, b);
    if clamped {
        clamp(raw)
    } else {
        raw
    }
}

/// A value of one of the data kinds.
#[derive(Clone, Copy, Debug, PartialEq, Eq, Structural)]
pub enum DataValue {
    Number(u64),
    Boolean(bool),
    Color(Color),
    Vector3(Vec3),
    Point3(Point3),
}

impl Operator {
    pub open spec fn symbol_spec(self) -> Seq<char> {
        match self {
            Operator::Add => "+"@,
            Operator::Sub => "-"@,
            Operator::Mul => "*"@,
            Operator::Div => "/"@,
        }
    }

    /// The sign of the operation, as shown in messages.
    pub fn symbol(&self) -> (s: &'static str)
        ensures
            s@ == self.symbol_spec(),
    {
        match self {
            Operator::Add => "+",
            Operator::Sub => "-",
            Operator::Mul => "*",
            Operator::Div => "/",
        }
    }
}

impl DataType {
    /// Whether results of this kind are clamped after an operation.
    pub open spec fn clamped(self) -> bool {
        self == DataType::Color
    }


    /// The name of the kind, as shown in messages.
    pub open spec fn name_spec(self) -> Seq<char> {
        match self {
            DataType::Number => "Number"@,
            DataType::Boolean => "Boolean"@,
            DataType::Color => "Color"@,
            DataType::Vector3 => "Vector3"@,
            DataType::Point3 => "Point3"@,
        }
    }

    pub fn name(&self) -> (s: &'static str)
        ensures
            s@ == self.name_spec(),
    {
        match self {
            DataType::Number => "Number",
            DataType::Boolean => "Boolean",
            DataType::Color => "Color",
            DataType::Vector3 => "Vector3",
            DataType::Point3 => "Point3",
        }
    }
}

impl DataValue {
    /// The kind of the value.
    pub open spec fn kind_spec(self) -> DataType {
        match self {
            DataValue::Number(_) => DataType::Number,
            DataValue::Boolean(_) => DataType::Boolean,
            DataValue::Color(_) => DataType::Color,
            DataValue::Vector3(_) => DataType::Vector3,
            DataValue::Point3(_) => DataType::Point3,
        }
    }

    /// The canonical zero of a kind.
    pub open spec fn zero(data_type: DataType) -> DataValue {
        match data_type {
            DataType::Number => DataValue::Number(0),
            DataType::Boolean => DataValue::Boolean(false),
            DataType::Color => DataValue::Color(Color { r: 0, g: 0, b: 0, a: 0 }),
            DataType::Vector3 => DataValue::Vector3(Vec3 { x: 0, y: 0, z: 0 }),
            DataType::Point3 => DataValue::Point3(Point3 { x: 0, y: 0, z: 0 }),
        }
    }

    #[verifier::when_used_as_spec(kind_spec)]
    pub fn kind(self) -> (k: DataType)
        ensures
            k == self.kind_spec(),
    {
        match self {
            DataValue::Number(_) => DataType::Number,
            DataValue::Boolean(_) => DataType::Boolean,
            DataValue::Color(_) => DataType::Color,
            DataValue::Vector3(_) => DataType::Vector3,
            DataValue::Point3(_) => DataType::Point3,
        }
    }

    /// The name of the value's kind.
    pub fn kind_name(&self) -> (s: &'static str)
        ensures
            s@ == self.kind_spec().name_spec(),
    {
        self.kind().name()
    }

    /// The canonical zero value of `data_type`.
    pub fn default(data_type: DataType) -> (v: DataValue)
        ensures
            v == Self::zero(data_type),
            v.kind_spec() == data_type,
    {
        match data_type {
            DataType::Number => DataValue::Number(0),
            DataType::Boolean => DataValue::Boolean(false),
            DataType::Color => DataValue::Color(Color::default()),
            DataType::Vector3 => DataValue::Vector3(Vec3::default()),
            DataType::Point3 => DataValue::Point3(Point3::default()),
        }
    }

    /// The scalars of the value in order: one for a number, four for a color,
    /// three for a vector or a point, none for a Boolean.
    pub open spec fn lanes(self) -> Seq<u64> {
        match self {
            DataValue::Number(x) => seq![x],
            DataValue::Boolean(_) => Seq::empty(),
            DataValue::Color(c) => c.lanes(),
            DataValue::Vector3(v) => v.lanes(),
            DataValue::Point3(p) => p.lanes(),
        }
    }

    /// Why an operation on `lhs` and `rhs` is refused, if it is: the operands
    /// differ in kind, or they are Booleans. Nothing is ever converted.
    pub open spec fn refusal(op: Operator, lhs: DataValue, rhs: DataValue) -> Option<EvalError> {
        if lhs.kind_spec() != rhs.kind_spec() || lhs.kind_spec() == DataType::Boolean {
            Some(EvalError::TypeMismatch { op, lhs: lhs.kind_spec(), rhs: rhs.kind_spec() })
        } else {
            None
        }
    }

    /// Whether `op` may be applied to `lhs` and `rhs`, and if so which kind
    /// the result has.
    pub fn result_kind(op: Operator, lhs: &DataValue, rhs: &DataValue) -> (r: Result<
        DataType,
        EvalError,
    >)
        ensures
            match r {
                Ok(k) => Self::refusal(op, *lhs, *rhs).is_none() && k == lhs.kind_spec(),
                Err(e) => Self::refusal(op, *lhs, *rhs) == Some(e),
            },
    {
        let l = lhs.kind();
        let r = rhs.kind();
        if l != r || l == DataType::Boolean {
            Err(EvalError::TypeMismatch { op, lhs: l, rhs: r })
        } else {
            Ok(l)
        }
    }

    /// Applies `op` to two values of the same kind, scalar by scalar. A color
    /// is clamped once, after the operation. Operands of different kinds, and
    /// Booleans, are refused.
    pub fn combine<F: Fn(Operator, u64, u64) -> u64, C: Fn(u64) -> u64>(
        op: Operator,
        lhs: DataValue,
        rhs: DataValue,
        scalar: &F,
        clamp: &C,
    ) -> (r: Result<DataValue, EvalError>)
        requires
            forall|o: Operator, x: u64, y: u64| call_requires(*scalar, (o, x, y)),
            forall|x: u64| call_requires(*clamp, (x,)),
        ensures
            match r {
                Ok(v) => {
                    &&& Self::refusal(op, lhs, rhs).is_none()
                    &&& v.kind_spec() == lhs.kind_spec()
                    &&& v.lanes().len() == lhs.lanes().len()
                    &&& forall|i: int|
                        0 <= i < v.lanes().len() ==> lane_computed(
                            *scalar,
                            *clamp,
                            op,
                            lhs.kind_spec().clamped(),
                            lhs.lanes()[i],
                            rhs.lanes()[i],
                            #[trigger] v.lanes()[i],
                        )
                },
                Err(e) => Self::refusal(op, lhs, rhs) == Some(e),
            },
    {
        match (lhs, rhs) {
            (DataValue::Number(a), DataValue::Number(b)) => Ok(
                DataValue::Number(compute_lane(op, false, a, b, scalar, clamp)),
            ),
            (DataValue::Color(a), DataValue::Color(b)) => Ok(
                DataValue::Color(Color::zip(op, a, b, scalar, clamp)),
            ),
            (DataValue::Vector3(a), DataValue::Vector3(b)) => Ok(
                DataValue::Vector3(
                    Vec3 {
                        x: compute_lane(op, false, a.x, b.x, scalar, clamp),
                        y: compute_lane(op, false, a.y, b.y, scalar, clamp),
                        z: compute_lane(op, false, a.z, b.z, scalar, clamp),
                    },
                ),
            ),
            (DataValue::Point3(a), DataValue::Point3(b)) => Ok(
                DataValue::Point3(
                    Point3 {
                        x: compute_lane(op, false, a.x, b.x, scalar, clamp),
                        y: compute_lane(op, false, a.y, b.y, scalar, clamp),
                        z: compute_lane(op, false, a.z, b.z, scalar, clamp),
                    },
                ),
            ),
            _ => Err(EvalError::TypeMismatch { op, lhs: lhs.kind(), rhs: rhs.kind() }),
        }
    }

    /// The sum of two values of the same kind.
    pub fn add<F: Fn(Operator, u64, u64) -> u64, C: Fn(u64) -> u64>(
        self,
        rhs: DataValue,
        scalar: &F,
        clamp: &C,
    ) -> (r: Result<DataValue, EvalError>)
        requires
            forall|o: Operator, x: u64, y: u64| call_requires(*scalar, (o, x, y)),
            forall|x: u64| call_requires(*clamp, (x,)),
        ensures
            Self::combined(Operator::Add, self, rhs, *scalar, *clamp, r),
    {
        Self::combine(Operator::Add, self, rhs, scalar, clamp)
    }

    /// The difference of two values of the same kind.
    pub fn sub<F: Fn(Operator, u64, u64) -> u64, C: Fn(u64) -> u64>(
        self,
        rhs: DataValue,
        scalar: &F,
        clamp: &C,
    ) -> (r: Result<DataValue, EvalError>)
        requires
            forall|o: Operator, x: u64, y: u64| call_requires(*scalar, (o, x, y)),
            forall|x: u64| call_requires(*clamp, (x,)),
        ensures
            Self::combined(Operator::Sub, self, rhs, *scalar, *clamp, r),
    {
        Self::combine(Operator::Sub, self, rhs, scalar, clamp)
    }

    /// The product of two values of the same kind.
    pub fn mul<F: Fn(Operator, u64, u64) -> u64, C: Fn(u64) -> u64>(
        self,
        rhs: DataValue,
        scalar: &F,
        clamp: &C,
    ) -> (r: Result<DataValue, EvalError>)
        requires
            forall|o: Operator, x: u64, y: u64| call_requires(*scalar, (o, x, y)),
            forall|x: u64| call_requires(*clamp, (x,)),
        ensures
            Self::combined(Operator::Mul, self, rhs, *scalar, *clamp, r),
    {
        Self::combine(Operator::Mul, self, rhs, scalar, clamp)
    }

    /// The quotient of two values of the same kind.
    pub fn div<F: Fn(Operator, u64, u64) -> u64, C: Fn(u64) -> u64>(
        self,
        rhs: DataValue,
        scalar: &F,
        clamp: &C,
    ) -> (r: Result<DataValue, EvalError>)
        requires
            forall|o: Operator, x: u64, y: u64| call_requires(*scalar, (o, x, y)),
            forall|x: u64| call_requires(*clamp, (x,)),
        ensures
            Self::combined(Operator::Div, self, rhs, *scalar, *clamp, r),
    {
        Self::combine(Operator::Div, self, rhs, scalar, clamp)
    }

    /// `r` is the outcome of applying `op` to `lhs` and `rhs`: a refusal for
    /// operands of different kinds and for Booleans; otherwise a value of the
    /// operands' kind whose scalars are computed one by one.
    pub open spec fn combined<F: Fn(Operator, u64, u64) -> u64, C: Fn(u64) -> u64>(
        op: Operator,
        lhs: DataValue,
        rhs: DataValue,
        scalar: F,
        clamp: C,
        r: Result<DataValue, EvalError>,
    ) -> bool {
        match r {
            Ok(v) => {
                &&& Self::refusal(op, lhs, rhs).is_none()
                &&& v.kind_spec() == lhs.kind_spec()
                &&& v.lanes().len() == lhs.lanes().len()
                &&& forall|i: int|
                    0 <= i < v.lanes().len() ==> lane_computed(
                        scalar,
                        clamp,
                        op,
                        lhs.kind_spec().clamped(),
                        lhs.lanes()[i],
                        rhs.lanes()[i],
                        #[trigger] v.lanes()[i],
                    )
            },
            Err(e) => Self::refusal(op, lhs, rhs) == Some(e),
        }
    }

    /// Values of different kinds never combine, whatever the operation, and
    /// the refusal names the operation and both kinds.
    pub proof fn law_kinds_never_mix(op: Operator, lhs: DataValue, rhs: DataValue)
        requires
            lhs.kind_spec() != rhs.kind_spec(),
        ensures
            Self::refusal(op, lhs, rhs) == Some(
                EvalError::TypeMismatch { op, lhs: lhs.kind_spec(), rhs: rhs.kind_spec() },
            ),
    {
    }

    /// A Boolean never takes part in an operation.
    pub proof fn law_booleans_never_combine(op: Operator, lhs: DataValue, rhs: DataValue)
        requires
            lhs.kind_spec() == DataType::Boolean || rhs.kind_spec() == DataType::Boolean,
        ensures
            Self::refusal(op, lhs, rhs) == Some(
                EvalError::TypeMismatch { op, lhs: lhs.kind_spec(), rhs: rhs.kind_spec() },
            ),
    {
    }

    /// Two values of the same kind, not Booleans, always combine.
    pub proof fn law_equal_kinds_combine(op: Operator, lhs: DataValue, rhs: DataValue)
        requires
            lhs.kind_spec() == rhs.kind_spec(),
            lhs.kind_spec() != DataType::Boolean,
        ensures
            Self::refusal(op, lhs, rhs).is_none(),
    {
    }
}

} // verus!
