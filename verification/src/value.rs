use vstd::prelude::*;

verus! {

/// Bit pattern of the IEEE 754 double -0.0. Together with 0 (the bits of
/// +0.0) these are exactly the numeric payloads that compare equal to zero.
pub const NEG_ZERO_BITS: u64 = 0x8000_0000_0000_0000;

/// Mask of the 52 mantissa bits of a double.
pub const MANTISSA_MASK: u64 = 0xF_FFFF_FFFF_FFFF;

/// Floor of the base-two logarithm; zero for zero.
pub open spec fn spec_log2(n: u64) -> nat
    decreases n,
{
    if n <= 1 {
        0
    } else {
        1 + spec_log2(n / 2)
    }
}

proof fn lemma_log2_le(n: u64, b: nat)
    requires
        1 <= b <= 64,
        (n as nat) < vstd::arithmetic::power2::pow2(b),
    ensures
        spec_log2(n) <= b - 1,
    decreases b,
{
    vstd::arithmetic::power2::lemma2_to64();
    if n > 1 {
        assert(vstd::arithmetic::power2::pow2(b) == 2 * vstd::arithmetic::power2::pow2((b - 1) as nat)) by {
            vstd::arithmetic::power2::lemma_pow2_unfold(b);
        }
        lemma_log2_le(n / 2, (b - 1) as nat);
    }
}

/// The bit pattern of the IEEE 754 double nearest to the exact count `n`,
/// rounding to nearest with ties to even. Counts up to 2^53 convert
/// exactly; larger ones round in the mantissa.
pub open spec fn spec_f64_bits_of_count(n: u64) -> u64 {
    if n == 0 {
        0
    } else {
        let e = spec_log2(n) as u64;
        if e <= 52 {
            (((1023 + e) as u64) << 52) | ((n << ((52 - e) as u64)) & MANTISSA_MASK)
        } else {
            let sh = (e - 52) as u64;
            let base = n >> sh;
            let rem = n & (((1u64 << sh) - 1) as u64);
            let half = 1u64 << ((sh - 1) as u64);
            let rounded = if rem > half || (rem == half && (base & 1) == 1) {
                (base + 1) as u64
            } else {
                base
            };
            if rounded == 1u64 << 53 {
                ((1024 + e) as u64) << 52
            } else {
                (((1023 + e) as u64) << 52) | (rounded & MANTISSA_MASK)
            }
        }
    }
}

/// Converts an exact count (a string length) to the bit pattern of the
/// nearest IEEE 754 double, ties to even.
pub fn f64_bits_of_count(n: u64) -> (r: u64)
    ensures
        r == spec_f64_bits_of_count(n),
{
    if n == 0 {
        return 0;
    }
    let mut e: u64 = 0;
    let mut m: u64 = n;
    proof {
        vstd::arithmetic::power2::lemma2_to64_rest();
        assert((n as nat) < vstd::arithmetic::power2::pow2(64)) by {
            vstd::arithmetic::power2::lemma2_to64_rest();
        }
        lemma_log2_le(n, 64);
    }
    while m > 1
        invariant
            1 <= m,
            spec_log2(n) == e + spec_log2(m),
            spec_log2(n) <= 63,
        decreases m,
    {
        assert(spec_log2(m) == 1 + spec_log2(m / 2));
        m = m / 2;
        e = e + 1;
    }
    assert(spec_log2(m) == 0);
    assert(e == spec_log2(n));
    if e <= 52 {
        ((1023 + e) << 52) | ((n << (52 - e)) & MANTISSA_MASK)
    } else {
        let sh = e - 52;
        let base = n >> sh;
        assert(1 <= sh && sh <= 11);
        assert(sh >= 1 && sh <= 11 ==> (1u64 << sh) >= 2) by (bit_vector);
        let rem = n & ((1u64 << sh) - 1);
        let half = 1u64 << (sh - 1);
        assert(sh >= 1 && sh <= 11 ==> (n >> sh) <= 0x7FFF_FFFF_FFFF_FFFF) by (bit_vector);
        let rounded = if rem > half || (rem == half && (base & 1) == 1) {
            base + 1
        } else {
            base
        };
        if rounded == 1u64 << 53 {
            (1024 + e) << 52
        } else {
            ((1023 + e) << 52) | (rounded & MANTISSA_MASK)
        }
    }
}

/// A runtime value of the machine: a number, held as the bit pattern of an
/// IEEE 754 double, or an immutable text.
///
/// The machine itself never performs double arithmetic; it hands the bit
/// patterns of the operands to its driver and receives the bit pattern of
/// the result, so a value carries the number as its raw 64 bits.
#[derive(Debug)]
pub enum Value {
    Num(u64),
    Str(String),
}

/// The mathematical shape of a [`Value`]: the number's bit pattern, or the
/// text as a sequence of characters.
pub enum ValueV {
    Num(u64),
    Str(Seq<char>),
}

impl View for Value {
    type V = ValueV;

    open spec fn view(&self) -> ValueV {
        match self {
            Value::Num(b) => ValueV::Num(*b),
            Value::Str(s) => ValueV::Str(s@),
        }
    }
}

impl Clone for Value {
    fn clone(&self) -> (r: Self)
        ensures
            r@ == self@,
    {
        match self {
            Value::Num(b) => Value::Num(*b),
            Value::Str(s) => Value::Str(s.clone()),
        }
    }
}

/// A value is true in a condition iff it is a number other than plus or
/// minus zero, or a non-empty text. (A NaN compares unequal to zero, so
/// every NaN bit pattern counts as true.)
pub open spec fn spec_truthy(v: ValueV) -> bool {
    match v {
        ValueV::Num(b) => b != 0 && b != NEG_ZERO_BITS,
        ValueV::Str(s) => s.len() > 0,
    }
}

/// What an addition of two values amounts to. Since either operand may be a
/// number whose display form only the driver can render, the plan either
/// finishes the work (both operands texts), asks for one double addition
/// (both numbers), or asks for the display form of the numeric side.
pub enum AddPlan {
    /// Both operands are numbers: the result is the double with the bit
    /// pattern of `a + b`, to be computed by the driver.
    Bits { a: u64, b: u64 },
    /// Both operands are texts: the result is their concatenation.
    Joined(String),
    /// Left operand is the number `a`, right the text `right`: the result
    /// is the display form of `a` followed by `right`.
    FmtLeft { a: u64, right: String },
    /// Left operand is the text `left`, right the number `b`: the result is
    /// `left` followed by the display form of `b`.
    FmtRight { left: String, b: u64 },
}

impl Value {
    /// Addition never fails: if either operand is a text the other side is
    /// coerced to its display form and the two are concatenated, and two
    /// numbers are added as doubles.
    pub fn add(&self, other: &Value) -> (r: AddPlan)
        ensures
            match (self@, other@) {
                (ValueV::Num(a), ValueV::Num(b)) => r matches AddPlan::Bits { a: x, b: y } && x == a && y == b,
                (ValueV::Str(s1), ValueV::Str(s2)) => r matches AddPlan::Joined(s) && s@ == s1 + s2,
                (ValueV::Num(a), ValueV::Str(s2)) => r matches AddPlan::FmtLeft { a: x, right } && x == a
                    && right@ == s2,
                (ValueV::Str(s1), ValueV::Num(b)) => r matches AddPlan::FmtRight { left, b: y } && y == b
                    && left@ == s1,
            },
    {
        match (self, other) {
            (Value::Num(a), Value::Num(b)) => AddPlan::Bits { a: *a, b: *b },
            (Value::Str(s1), Value::Str(s2)) => AddPlan::Joined(s1.clone().concat(s2.as_str())),
            (Value::Num(a), Value::Str(s2)) => AddPlan::FmtLeft { a: *a, right: s2.clone() },
            (Value::Str(s1), Value::Num(b)) => AddPlan::FmtRight { left: s1.clone(), b: *b },
        }
    }

    /// Subtraction is defined on two numbers only; the driver computes the
    /// double difference of the returned operand bit patterns.
    pub fn sub(&self, other: &Value) -> (r: Result<(u64, u64), String>)
        ensures
            match (self@, other@) {
                (ValueV::Num(a), ValueV::Num(b)) => r matches Ok(p) && p.0 == a && p.1 == b,
                _ => r matches Err(m) && m@ == "subtraction requires both operands to be numbers"@,
            },
    {
        match (self, other) {
            (Value::Num(a), Value::Num(b)) => Ok((*a, *b)),
            _ => Err("subtraction requires both operands to be numbers".to_owned()),
        }
    }

    /// Multiplication is defined on two numbers only.
    pub fn mul(&self, other: &Value) -> (r: Result<(u64, u64), String>)
        ensures
            match (self@, other@) {
                (ValueV::Num(a), ValueV::Num(b)) => r matches Ok(p) && p.0 == a && p.1 == b,
                _ => r matches Err(m) && m@ == "multiplication requires both operands to be numbers"@,
            },
    {
        match (self, other) {
            (Value::Num(a), Value::Num(b)) => Ok((*a, *b)),
            _ => Err("multiplication requires both operands to be numbers".to_owned()),
        }
    }

    /// Division is defined on two numbers and rejects a divisor whose bit
    /// pattern is plus or minus zero. (A NaN divisor is not zero and passes.)
    pub fn div(&self, other: &Value) -> (r: Result<(u64, u64), String>)
        ensures
            match (self@, other@) {
                (ValueV::Num(a), ValueV::Num(b)) => {
                    if b == 0 || b == NEG_ZERO_BITS {
                        r matches Err(m) && m@ == "division by zero"@
                    } else {
                        r matches Ok(p) && p.0 == a && p.1 == b
                    }
                },
                _ => r matches Err(m) && m@ == "division requires both operands to be numbers"@,
            },
    {
        match (self, other) {
            (Value::Num(a), Value::Num(b)) => {
                if *b == 0 || *b == NEG_ZERO_BITS {
                    Err("division by zero".to_owned())
                } else {
                    Ok((*a, *b))
                }
            },
            _ => Err("division requires both operands to be numbers".to_owned()),
        }
    }

    /// The display form of a text is the text itself; a number has no
    /// display form the library can render (the driver does), hence `None`.
    pub fn format_for_print(&self) -> (r: Option<String>)
        ensures
            match self@ {
                ValueV::Str(s) => r matches Some(t) && t@ == s,
                ValueV::Num(_) => r is None,
            },
    {
        match self {
            Value::Str(s) => Some(s.clone()),
            Value::Num(_) => None,
        }
    }
}

} // verus!
