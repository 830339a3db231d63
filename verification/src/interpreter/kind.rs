//! The numeric value model of the evaluator: a tagged union of a 32-bit
//! integer and an exact rational (the `REAL` representation), with the
//! promotion rules of the language.  Every operation is specified exactly,
//! including when it reports division by zero or an out-of-range result.

use vstd::prelude::*;

verus! {

use crate::rational::{
    RatView, Rational, rat_add_raw, rat_canon, rat_div_raw, rat_fits, rat_mul_raw, rat_sub_raw,
    tdiv, trunc_sat_i32,
};

/// Mathematical view of a numeric value.
pub enum ValueView {
    Int(int),
    Real(RatView),
}

/// Why an arithmetic step or an evaluation step failed.
#[derive(Debug, Clone, Copy, PartialEq, Eq, Structural)]
pub enum EvalFault {
    BadToken,
    NotFound,
    DivZero,
    Overflow,
}

/// The diagnostic message of each fault.
pub open spec fn fault_message(e: EvalFault) -> Seq<char> {
    match e {
        EvalFault::BadToken => "Invalid token"@,
        EvalFault::NotFound => "Variable not found"@,
        EvalFault::DivZero => "Division by zero"@,
        EvalFault::Overflow => "Arithmetic overflow"@,
    }
}

/// A numeric value: a 32-bit integer or an exact rational real.
#[derive(Debug, Clone, Copy)]
pub enum InterpreterType {
    Integer(i32),
    Real(Rational),
}

impl View for InterpreterType {
    type V = ValueView;

    open spec fn view(&self) -> ValueView {
        match self {
            InterpreterType::Integer(i) => ValueView::Int(*i as int),
            InterpreterType::Real(r) => ValueView::Real(r@),
        }
    }
}

/// A value is well-formed: integers are in 32-bit range (by type) and
/// rationals are canonical and bounded.
pub open spec fn value_wf(v: ValueView) -> bool {
    match v {
        ValueView::Int(i) => i32::MIN <= i <= i32::MAX,
        ValueView::Real(r) => rat_canon(r) && rat_fits(r),
    }
}

impl InterpreterType {
    pub open spec fn wf(self) -> bool {
        value_wf(self@)
    }
}

pub open spec fn in_i32(x: int) -> bool {
    i32::MIN <= x <= i32::MAX
}

/// A value as a rational: integers are promoted with denominator one.
pub open spec fn as_rat(v: ValueView) -> RatView {
    match v {
        ValueView::Int(i) => RatView { n: i, d: 1 },
        ValueView::Real(r) => r,
    }
}

/// Addition: integer when both operands are integers, else promoted to real.
pub open spec fn val_add(a: ValueView, b: ValueView) -> Result<ValueView, EvalFault> {
    match (a, b) {
        (ValueView::Int(x), ValueView::Int(y)) => if in_i32(x + y) {
            Ok(ValueView::Int(x + y))
        } else {
            Err(EvalFault::Overflow)
        },
        (x, y) => {
            let r = rat_add_raw(as_rat(x), as_rat(y));
            if rat_fits(r) {
                Ok(ValueView::Real(r))
            } else {
                Err(EvalFault::Overflow)
            }
        },
    }
}

/// Subtraction, with the same promotion rule as addition.
pub open spec fn val_sub(a: ValueView, b: ValueView) -> Result<ValueView, EvalFault> {
    match (a, b) {
        (ValueView::Int(x), ValueView::Int(y)) => if in_i32(x - y) {
            Ok(ValueView::Int(x - y))
        } else {
            Err(EvalFault::Overflow)
        },
        (x, y) => {
            let r = rat_sub_raw(as_rat(x), as_rat(y));
            if rat_fits(r) {
                Ok(ValueView::Real(r))
            } else {
                Err(EvalFault::Overflow)
            }
        },
    }
}

/// Multiplication, with the same promotion rule as addition.
pub open spec fn val_mul(a: ValueView, b: ValueView) -> Result<ValueView, EvalFault> {
    match (a, b) {
        (ValueView::Int(x), ValueView::Int(y)) => if in_i32(x * y) {
            Ok(ValueView::Int(x * y))
        } else {
            Err(EvalFault::Overflow)
        },
        (x, y) => {
            let r = rat_mul_raw(as_rat(x), as_rat(y));
            if rat_fits(r) {
                Ok(ValueView::Real(r))
            } else {
                Err(EvalFault::Overflow)
            }
        },
    }
}

/// Division with `/`: always real, and division by zero is an error.
pub open spec fn val_div(a: ValueView, b: ValueView) -> Result<ValueView, EvalFault> {
    let x = as_rat(a);
    let y = as_rat(b);
    if y.n == 0 {
        Err(EvalFault::DivZero)
    } else {
        let r = rat_div_raw(x, y);
        if rat_fits(r) {
            Ok(ValueView::Real(r))
        } else {
            Err(EvalFault::Overflow)
        }
    }
}

/// A `DIV` operand: integers as themselves, reals truncated toward zero
/// and saturated to the `i32` range.
pub open spec fn to_i32_operand(v: ValueView) -> int {
    match v {
        ValueView::Int(x) => x,
        ValueView::Real(r) => trunc_sat_i32(r),
    }
}

/// Integer division with `DIV`: always an integer, truncating toward zero.
pub open spec fn val_integer_div(a: ValueView, b: ValueView) -> Result<ValueView, EvalFault> {
    let x = to_i32_operand(a);
    let y = to_i32_operand(b);
    if y == 0 {
        Err(EvalFault::DivZero)
    } else {
        let q = tdiv(x, y);
        if in_i32(q) {
            Ok(ValueView::Int(q))
        } else {
            Err(EvalFault::Overflow)
        }
    }
}

/// Negation preserves the tag.
pub open spec fn val_neg(a: ValueView) -> Result<ValueView, EvalFault> {
    match a {
        ValueView::Int(x) => if in_i32(-x) {
            Ok(ValueView::Int(-x))
        } else {
            Err(EvalFault::Overflow)
        },
        ValueView::Real(r) => Ok(ValueView::Real(RatView { n: -r.n, d: r.d })),
    }
}

impl InterpreterType {
    /// This value as a rational, promoting an integer exactly.
    pub fn to_rational(self) -> (r: Rational)
        requires
            self.wf(),
        ensures
            r.wf(),
            r@ == as_rat(self@),
    {
        match self {
            InterpreterType::Integer(x) => Rational::from_integer(x as i64),
            InterpreterType::Real(r) => r,
        }
    }

    pub fn add(self, other: Self) -> (r: Result<Self, EvalFault>)
        requires
            self.wf(),
            other.wf(),
        ensures
            match r {
                Ok(v) => v.wf() && val_add(self@, other@) == Ok::<ValueView, EvalFault>(v@),
                Err(e) => val_add(self@, other@) == Err::<ValueView, EvalFault>(e),
            },
    {
        match (self, other) {
            (InterpreterType::Integer(x), InterpreterType::Integer(y)) => {
                let s: i64 = x as i64 + y as i64;
                if i32::MIN as i64 <= s && s <= i32::MAX as i64 {
                    Ok(InterpreterType::Integer(s as i32))
                } else {
                    Err(EvalFault::Overflow)
                }
            },
            (a, b) => {
                match a.to_rational().add_pair(b.to_rational()) {
                    Some(q) => Ok(InterpreterType::Real(q)),
                    None => Err(EvalFault::Overflow),
                }
            },
        }
    }

    pub fn sub(self, other: Self) -> (r: Result<Self, EvalFault>)
        requires
            self.wf(),
            other.wf(),
        ensures
            match r {
                Ok(v) => v.wf() && val_sub(self@, other@) == Ok::<ValueView, EvalFault>(v@),
                Err(e) => val_sub(self@, other@) == Err::<ValueView, EvalFault>(e),
            },
    {
        match (self, other) {
            (InterpreterType::Integer(x), InterpreterType::Integer(y)) => {
                let s: i64 = x as i64 - y as i64;
                if i32::MIN as i64 <= s && s <= i32::MAX as i64 {
                    Ok(InterpreterType::Integer(s as i32))
                } else {
                    Err(EvalFault::Overflow)
                }
            },
            (a, b) => {
                match a.to_rational().sub_pair(b.to_rational()) {
                    Some(q) => Ok(InterpreterType::Real(q)),
                    None => Err(EvalFault::Overflow),
                }
            },
        }
    }

    pub fn mul(self, other: Self) -> (r: Result<Self, EvalFault>)
        requires
            self.wf(),
            other.wf(),
        ensures
            match r {
                Ok(v) => v.wf() && val_mul(self@, other@) == Ok::<ValueView, EvalFault>(v@),
                Err(e) => val_mul(self@, other@) == Err::<ValueView, EvalFault>(e),
            },
    {
        match (self, other) {
            (InterpreterType::Integer(x), InterpreterType::Integer(y)) => {
                proof {
                    assert((x as int) * (y as int) < 0x8000_0000_0000_0000
                        && -0x8000_0000_0000_0000 < (x as int) * (y as int)) by (nonlinear_arith)
                        requires
                            i32::MIN <= x as int <= i32::MAX,
                            i32::MIN <= y as int <= i32::MAX,
                    ;
                }
                let s: i64 = x as i64 * y as i64;
                if i32::MIN as i64 <= s && s <= i32::MAX as i64 {
                    Ok(InterpreterType::Integer(s as i32))
                } else {
                    Err(EvalFault::Overflow)
                }
            },
            (a, b) => {
                match a.to_rational().mul_pair(b.to_rational()) {
                    Some(q) => Ok(InterpreterType::Real(q)),
                    None => Err(EvalFault::Overflow),
                }
            },
        }
    }

    /// Division with `/`: the result is always real.
    pub fn div(self, other: Self) -> (r: Result<Self, EvalFault>)
        requires
            self.wf(),
            other.wf(),
        ensures
            match r {
                Ok(v) => v.wf() && val_div(self@, other@) == Ok::<ValueView, EvalFault>(v@),
                Err(e) => val_div(self@, other@) == Err::<ValueView, EvalFault>(e),
            },
    {
        let a = self.to_rational();
        let b = other.to_rational();
        if b.num() == 0 {
            Err(EvalFault::DivZero)
        } else {
            match a.div_pair(b) {
                Some(q) => Ok(InterpreterType::Real(q)),
                None => Err(EvalFault::Overflow),
            }
        }
    }

    /// Integer division with `DIV`: the result is always an integer.
    pub fn integer_div(self, other: Self) -> (r: Result<Self, EvalFault>)
        requires
            self.wf(),
            other.wf(),
        ensures
            match r {
                Ok(v) => v.wf() && val_integer_div(self@, other@) == Ok::<ValueView, EvalFault>(
                    v@,
                ),
                Err(e) => val_integer_div(self@, other@) == Err::<ValueView, EvalFault>(e),
            },
    {
        let x: i32 = match self {
            InterpreterType::Integer(i) => i,
            InterpreterType::Real(r) => r.trunc_to_i32_sat(),
        };
        let y: i32 = match other {
            InterpreterType::Integer(i) => i,
            InterpreterType::Real(r) => r.trunc_to_i32_sat(),
        };
        if y == 0 {
            return Err(EvalFault::DivZero);
        }
        let xi: i64 = x as i64;
        let yi: i64 = y as i64;
        let ax: u64 = if xi < 0 {
            (-xi) as u64
        } else {
            xi as u64
        };
        let ay: u64 = if yi < 0 {
            (-yi) as u64
        } else {
            yi as u64
        };
        let q: u64 = ax / ay;
        if (x < 0) != (y < 0) {
            if q > 2147483648u64 {
                Err(EvalFault::Overflow)
            } else if q == 2147483648u64 {
                Ok(InterpreterType::Integer(i32::MIN))
            } else {
                Ok(InterpreterType::Integer(-(q as i32)))
            }
        } else {
            if q > 2147483647u64 {
                Err(EvalFault::Overflow)
            } else {
                Ok(InterpreterType::Integer(q as i32))
            }
        }
    }

    /// Negation: `+` is the identity elsewhere; `-` negates, keeping the tag.
    pub fn neg(self) -> (r: Result<Self, EvalFault>)
        requires
            self.wf(),
        ensures
            match r {
                Ok(v) => v.wf() && val_neg(self@) == Ok::<ValueView, EvalFault>(v@),
                Err(e) => val_neg(self@) == Err::<ValueView, EvalFault>(e),
            },
    {
        match self {
            InterpreterType::Integer(x) => {
                if x == i32::MIN {
                    Err(EvalFault::Overflow)
                } else {
                    Ok(InterpreterType::Integer(-x))
                }
            },
            InterpreterType::Real(r) => Ok(InterpreterType::Real(r.neg_rational())),
        }
    }
}

} // verus!
