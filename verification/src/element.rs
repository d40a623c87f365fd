//! The capability interface that a matrix element type must offer: exact
//! addition, multiplication and subtraction, together with the identity
//! laws that make scaling by one and adding a zero multiple no-ops.

use vstd::prelude::*;

verus! {

/// The character for one decimal digit.
pub open spec fn digit_char(d: nat) -> char {
    if d == 0 {
        '0'
    } else if d == 1 {
        '1'
    } else if d == 2 {
        '2'
    } else if d == 3 {
        '3'
    } else if d == 4 {
        '4'
    } else if d == 5 {
        '5'
    } else if d == 6 {
        '6'
    } else if d == 7 {
        '7'
    } else if d == 8 {
        '8'
    } else {
        '9'
    }
}

/// The decimal digits of `n`, most significant first.
pub open spec fn dec_digits(n: nat) -> Seq<char>
    decreases n,
{
    if n < 10 {
        seq![digit_char(n)]
    } else {
        dec_digits(n / 10) + seq![digit_char(n % 10)]
    }
}

/// The decimal text of an integer: a minus sign for negative values,
/// then the digits of its magnitude.
pub open spec fn int_text(x: int) -> Seq<char> {
    if x < 0 {
        seq!['-'] + dec_digits((-x) as nat)
    } else {
        dec_digits(x as nat)
    }
}

/// Whether `c` is a decimal digit.
pub open spec fn is_digit(c: char) -> bool {
    c == '0' || c == '1' || c == '2' || c == '3' || c == '4' || c == '5' || c == '6' || c == '7'
        || c == '8' || c == '9'
}

/// The value of one decimal digit character; other characters count as 9.
pub open spec fn digit_val(c: char) -> nat {
    if c == '0' {
        0
    } else if c == '1' {
        1
    } else if c == '2' {
        2
    } else if c == '3' {
        3
    } else if c == '4' {
        4
    } else if c == '5' {
        5
    } else if c == '6' {
        6
    } else if c == '7' {
        7
    } else if c == '8' {
        8
    } else {
        9
    }
}

/// The number written by a run of digit characters, most significant
/// first; the empty run writes 0.
pub open spec fn digits_val(t: Seq<char>) -> nat
    decreases t.len(),
{
    if t.len() == 0 {
        0
    } else {
        digits_val(t.drop_last()) * 10 + digit_val(t.last())
    }
}

/// Whether `t` is one or more digit characters and nothing else.
pub open spec fn all_digits(t: Seq<char>) -> bool {
    t.len() > 0 && forall|k: int| 0 <= k < t.len() ==> is_digit(#[trigger] t[k])
}

/// The digit characters of an optionally minus-signed number.
pub open spec fn tok_digits(t: Seq<char>) -> Seq<char> {
    if t.len() > 0 && t[0] == '-' {
        t.skip(1)
    } else {
        t
    }
}

/// Whether `t` starts with a minus sign.
pub open spec fn tok_neg(t: Seq<char>) -> bool {
    t.len() > 0 && t[0] == '-'
}

/// Whether `t` is an optionally minus-signed run of digits.
pub open spec fn tok_ok(t: Seq<char>) -> bool {
    all_digits(tok_digits(t))
}

/// The integer written by an optionally minus-signed run of digits.
pub open spec fn tok_val(t: Seq<char>) -> int {
    if tok_neg(t) {
        -(digits_val(tok_digits(t)) as int)
    } else {
        digits_val(tok_digits(t)) as int
    }
}

/// Writing one more digit multiplies the value so far by ten: the value
/// of a digit run never shrinks as the run grows.
pub proof fn lemma_digits_val_monotone(t: Seq<char>, i: int, j: int)
    requires
        0 <= i <= j <= t.len(),
    ensures
        digits_val(t.subrange(0, i)) <= digits_val(t.subrange(0, j)),
    decreases j - i,
{
    if i < j {
        lemma_digits_val_monotone(t, i, j - 1);
        let prev = t.subrange(0, j - 1);
        let cur = t.subrange(0, j);
        assert(cur.drop_last() =~= prev);
        assert(digits_val(cur) == digits_val(prev) * 10 + digit_val(cur.last()));
        assert(digits_val(prev) * 10 >= digits_val(prev)) by (nonlinear_arith)
            requires
                digits_val(prev) >= 0,
        ;
    }
}

/// A numeric type that a `Matrix` can hold.
///
/// Each arithmetic capability comes in three parts: a specification function
/// giving the mathematical result, a guard saying on which operands the
/// executable operation is defined (machine limits only), and the executable
/// operation itself, proved to match the specification. The proof obligations
/// at the bottom tie the distinguished constants `zero` and `one` to the
/// arithmetic, so that generic code can show that certain row operations
/// leave a matrix unchanged.
pub trait Element: Sized + Copy {
    /// Which values of the type are well formed. Arithmetic is only
    /// guaranteed to behave on valid values, and always yields valid values.
    spec fn valid(self) -> bool;

    /// The mathematical sum of two values.
    spec fn add_spec(a: Self, b: Self) -> Self;

    /// The mathematical product of two values.
    spec fn mul_spec(a: Self, b: Self) -> Self;

    /// The mathematical difference of two values.
    spec fn sub_spec(a: Self, b: Self) -> Self;

    /// Whether the sum of `a` and `b` is representable.
    spec fn add_ok(a: Self, b: Self) -> bool;

    /// Whether the product of `a` and `b` is representable.
    spec fn mul_ok(a: Self, b: Self) -> bool;

    /// Whether the difference of `a` and `b` is representable.
    spec fn sub_ok(a: Self, b: Self) -> bool;

    /// The additive identity.
    spec fn zero_spec() -> Self;

    /// The multiplicative identity.
    spec fn one_spec() -> Self;

    /// The canonical text of a value.
    spec fn text_spec(self) -> Seq<char>;

    /// Renders a value to its canonical text.
    fn to_text(&self) -> (s: String)
        requires
            self.valid(),
        ensures
            s@ == self.text_spec(),
    ;

    /// The additive identity, as a runtime value.
    fn zero() -> (r: Self)
        ensures
            r == Self::zero_spec(),
            r.valid(),
    ;

    /// The multiplicative identity, as a runtime value.
    fn one() -> (r: Self)
        ensures
            r == Self::one_spec(),
            r.valid(),
    ;

    /// Tests whether the sum of two values is representable.
    fn can_add(self, other: Self) -> (r: bool)
        requires
            self.valid(),
            other.valid(),
        ensures
            r == Self::add_ok(self, other),
    ;

    /// Tests whether the product of two values is representable.
    fn can_mul(self, other: Self) -> (r: bool)
        requires
            self.valid(),
            other.valid(),
        ensures
            r == Self::mul_ok(self, other),
    ;

    /// Tests whether the difference of two values is representable.
    fn can_sub(self, other: Self) -> (r: bool)
        requires
            self.valid(),
            other.valid(),
        ensures
            r == Self::sub_ok(self, other),
    ;

    /// Adds two values.
    fn add(self, other: Self) -> (r: Self)
        requires
            self.valid(),
            other.valid(),
            Self::add_ok(self, other),
        ensures
            r == Self::add_spec(self, other),
            r.valid(),
    ;

    /// Multiplies two values.
    fn mul(self, other: Self) -> (r: Self)
        requires
            self.valid(),
            other.valid(),
            Self::mul_ok(self, other),
        ensures
            r == Self::mul_spec(self, other),
            r.valid(),
    ;

    /// Subtracts `other` from `self`.
    fn sub(self, other: Self) -> (r: Self)
        requires
            self.valid(),
            other.valid(),
            Self::sub_ok(self, other),
        ensures
            r == Self::sub_spec(self, other),
            r.valid(),
    ;

    /// The identities are themselves valid values.
    proof fn law_identities_valid()
        ensures
            Self::zero_spec().valid(),
            Self::one_spec().valid(),
    ;

    /// Multiplying by `one` on the left changes nothing.
    proof fn law_mul_one(x: Self)
        requires
            x.valid(),
        ensures
            Self::mul_ok(Self::one_spec(), x),
            Self::mul_spec(Self::one_spec(), x) == x,
    ;

    /// Multiplying by `zero` on the left yields `zero`.
    proof fn law_mul_zero(x: Self)
        requires
            x.valid(),
        ensures
            Self::mul_ok(Self::zero_spec(), x),
            Self::mul_spec(Self::zero_spec(), x) == Self::zero_spec(),
    ;

    /// Adding `zero` on the left changes nothing.
    proof fn law_add_zero(x: Self)
        requires
            x.valid(),
        ensures
            Self::add_ok(Self::zero_spec(), x),
            Self::add_spec(Self::zero_spec(), x) == x,
    ;

    /// Addition does not depend on the order of its operands.
    proof fn law_add_comm(a: Self, b: Self)
        requires
            a.valid(),
            b.valid(),
        ensures
            Self::add_ok(a, b) == Self::add_ok(b, a),
            Self::add_spec(a, b) == Self::add_spec(b, a),
    ;
}

/// The product of two values from the 64-bit range fits in 128 bits.
proof fn lemma_i64_prod_in_i128(x: i128, y: i128)
    requires
        i64::MIN <= x <= i64::MAX,
        i64::MIN <= y <= i64::MAX,
    ensures
        i128::MIN < x * y < i128::MAX,
{
    assert(-0x4000_0000_0000_0000_0000_0000_0000_0000 <= x * y
        <= 0x4000_0000_0000_0000_0000_0000_0000_0000) by (nonlinear_arith)
        requires
            -0x8000_0000_0000_0000 <= x <= 0x7FFF_FFFF_FFFF_FFFF,
            -0x8000_0000_0000_0000 <= y <= 0x7FFF_FFFF_FFFF_FFFF,
    ;
}

/// The value of a digit character, or 10 for any other character.
pub fn digit_of(c: char) -> (d: u64)
    ensures
        (d < 10) <==> is_digit(c),
        d < 10 ==> d as nat == digit_val(c),
{
    match c {
        '0' => 0,
        '1' => 1,
        '2' => 2,
        '3' => 3,
        '4' => 4,
        '5' => 5,
        '6' => 6,
        '7' => 7,
        '8' => 8,
        '9' => 9,
        _ => 10,
    }
}

/// Parses the characters of `s` from `from` to `to` as an optionally
/// minus-signed run of decimal digits. Yields the number written there,
/// or nothing exactly when the characters are not such a run or the
/// number does not fit a 64-bit integer.
pub fn parse_signed_token(s: &str, from: usize, to: usize) -> (r: Option<i64>)
    requires
        from <= to <= s@.len(),
    ensures
        (r is Some) <==> (tok_ok(s@.subrange(from as int, to as int)) && i64::MIN <= tok_val(
            s@.subrange(from as int, to as int),
        ) <= i64::MAX),
        r matches Some(v) ==> v as int == tok_val(s@.subrange(from as int, to as int)),
{
    let ghost t = s@.subrange(from as int, to as int);
    if from == to {
        return None;
    }
    let first = s.get_char(from);
    let neg = first == '-';
    let dstart = if neg {
        from + 1
    } else {
        from
    };
    let ghost digits = s@.subrange(dstart as int, to as int);
    proof {
        assert(t[0] == s@[from as int]);
        if neg {
            assert(tok_digits(t) =~= digits);
        } else {
            assert(tok_digits(t) =~= digits);
        }
        assert(neg == tok_neg(t));
    }
    if dstart == to {
        return None;
    }
    let cap: u64 = if neg {
        9223372036854775808u64
    } else {
        9223372036854775807u64
    };
    let mut acc: u64 = 0;
    let mut i = dstart;
    while i < to
        invariant
            from <= dstart <= i <= to <= s@.len(),
            t == s@.subrange(from as int, to as int),
            digits == s@.subrange(dstart as int, to as int),
            tok_digits(t) == digits,
            neg == tok_neg(t),
            dstart < to,
            acc <= cap,
            neg ==> cap == 9223372036854775808u64,
            !neg ==> cap == 9223372036854775807u64,
            acc as nat == digits_val(s@.subrange(dstart as int, i as int)),
            forall|k: int| dstart <= k < i ==> is_digit(#[trigger] s@[k]),
        decreases to - i,
    {
        let c = s.get_char(i);
        let d = digit_of(c);
        if d >= 10 {
            proof {
                assert(digits[i - dstart] == s@[i as int]);
            }
            return None;
        }
        let wide: u128 = acc as u128 * 10 + d as u128;
        proof {
            assert(s@.subrange(dstart as int, i as int + 1).drop_last() =~= s@.subrange(
                dstart as int,
                i as int,
            ));
            assert(s@.subrange(dstart as int, i as int + 1).last() == s@[i as int]);
        }
        if wide > cap as u128 {
            proof {
                lemma_digits_val_monotone(digits, i + 1 - dstart, digits.len() as int);
                assert(digits.subrange(0, i + 1 - dstart) =~= s@.subrange(
                    dstart as int,
                    i as int + 1,
                ));
                assert(digits.subrange(0, digits.len() as int) =~= digits);
            }
            return None;
        }
        acc = wide as u64;
        i += 1;
    }
    proof {
        assert(s@.subrange(dstart as int, i as int) =~= digits);
        assert(acc as nat == digits_val(tok_digits(t)));
        assert(forall|k: int| 0 <= k < digits.len() ==> digits[k] == s@[dstart + k]);
    }
    if neg {
        Some((-(acc as i128)) as i64)
    } else {
        Some(acc as i64)
    }
}

/// Appends the character of one decimal digit.
pub fn push_digit(s: &mut String, d: u64)
    requires
        d < 10,
    ensures
        final(s)@ == old(s)@ + seq![digit_char(d as nat)],
{
    if d == 0 {
        proof {
            reveal_strlit("0");
        }
        s.append("0");
    } else if d == 1 {
        proof {
            reveal_strlit("1");
        }
        s.append("1");
    } else if d == 2 {
        proof {
            reveal_strlit("2");
        }
        s.append("2");
    } else if d == 3 {
        proof {
            reveal_strlit("3");
        }
        s.append("3");
    } else if d == 4 {
        proof {
            reveal_strlit("4");
        }
        s.append("4");
    } else if d == 5 {
        proof {
            reveal_strlit("5");
        }
        s.append("5");
    } else if d == 6 {
        proof {
            reveal_strlit("6");
        }
        s.append("6");
    } else if d == 7 {
        proof {
            reveal_strlit("7");
        }
        s.append("7");
    } else if d == 8 {
        proof {
            reveal_strlit("8");
        }
        s.append("8");
    } else {
        proof {
            reveal_strlit("9");
        }
        s.append("9");
    }
    proof {
        assert(s@ =~= old(s)@ + seq![digit_char(d as nat)]);
    }
}

/// Appends the decimal digits of `m`, most significant first.
pub fn push_u64_text(s: &mut String, m: u64)
    ensures
        final(s)@ == old(s)@ + dec_digits(m as nat),
{
    if m < 10 {
        push_digit(s, m);
        return ;
    }
    let mut rest: u64 = m;
    let mut digs: Vec<u64> = Vec::new();
    let ghost mut tail: Seq<char> = Seq::empty();
    while rest > 0
        invariant
            rest >= 0,
            digs@.len() == tail.len(),
            forall|k: int|
                0 <= k < digs@.len() ==> #[trigger] digs@[k] < 10 && tail[digs@.len() - 1 - k]
                    == digit_char(digs@[k] as nat),
            rest > 0 ==> dec_digits(m as nat) == dec_digits(rest as nat) + tail,
            rest == 0 ==> dec_digits(m as nat) == tail,
        decreases rest,
    {
        let d: u64 = rest % 10;
        proof {
            tail = seq![digit_char(d as nat)] + tail;
        }
        digs.push(d);
        rest = rest / 10;
        proof {
            if rest > 0 {
                assert(dec_digits(m as nat) =~= dec_digits(rest as nat) + tail);
            } else {
                assert(dec_digits(m as nat) =~= tail);
            }
        }
    }
    let ghost start = s@;
    let len: usize = digs.len();
    let mut j: usize = 0;
    while j < len
        invariant
            len == digs@.len(),
            digs@.len() == tail.len(),
            forall|k: int|
                0 <= k < digs@.len() ==> #[trigger] digs@[k] < 10 && tail[digs@.len() - 1 - k]
                    == digit_char(digs@[k] as nat),
            j <= len,
            s@ == start + tail.subrange(0, j as int),
        decreases len - j,
    {
        push_digit(s, digs[len - 1 - j]);
        j += 1;
        proof {
            assert(tail[j as int - 1] == digit_char(digs@[len - (j as int - 1) - 1] as nat));
            assert(s@ =~= start + tail.subrange(0, j as int));
        }
    }
    proof {
        assert(tail.subrange(0, tail.len() as int) =~= tail);
    }
}

/// Appends the decimal text of `x`: a minus sign for negative values,
/// then the digits of its magnitude.
pub fn push_i64_text(s: &mut String, x: i64)
    ensures
        final(s)@ == old(s)@ + int_text(x as int),
{
    if x < 0 {
        proof {
            reveal_strlit("-");
        }
        let ghost before = s@;
        s.append("-");
        proof {
            assert(s@ =~= before + seq!['-']);
        }
        let mag: u64 = (-(x as i128)) as u64;
        push_u64_text(s, mag);
        proof {
            assert(before + seq!['-'] + dec_digits(mag as nat) =~= before + int_text(x as int));
        }
    } else {
        push_u64_text(s, x as u64);
    }
}

/// Machine integers with the usual exact arithmetic; an operation is defined
/// exactly when its mathematical result fits in the type.
impl Element for i64 {
    open spec fn valid(self) -> bool {
        true
    }

    open spec fn add_spec(a: Self, b: Self) -> Self {
        if i64::MIN <= a + b <= i64::MAX {
            (a + b) as i64
        } else {
            0
        }
    }

    open spec fn mul_spec(a: Self, b: Self) -> Self {
        if i64::MIN <= a * b <= i64::MAX {
            (a * b) as i64
        } else {
            0
        }
    }

    open spec fn sub_spec(a: Self, b: Self) -> Self {
        if i64::MIN <= a - b <= i64::MAX {
            (a - b) as i64
        } else {
            0
        }
    }

    open spec fn add_ok(a: Self, b: Self) -> bool {
        i64::MIN <= a + b <= i64::MAX
    }

    open spec fn mul_ok(a: Self, b: Self) -> bool {
        i64::MIN <= a * b <= i64::MAX
    }

    open spec fn sub_ok(a: Self, b: Self) -> bool {
        i64::MIN <= a - b <= i64::MAX
    }

    open spec fn zero_spec() -> Self {
        0
    }

    open spec fn one_spec() -> Self {
        1
    }

    open spec fn text_spec(self) -> Seq<char> {
        int_text(self as int)
    }

    fn to_text(&self) -> (s: String) {
        let mut out = String::new();
        push_i64_text(&mut out, *self);
        out
    }

    fn zero() -> (r: Self) {
        0
    }

    fn one() -> (r: Self) {
        1
    }

    fn can_add(self, other: Self) -> (r: bool) {
        let wide: i128 = self as i128 + other as i128;
        i64::MIN as i128 <= wide && wide <= i64::MAX as i128
    }

    fn can_mul(self, other: Self) -> (r: bool) {
        proof {
            lemma_i64_prod_in_i128(self as i128, other as i128);
        }
        let wide: i128 = self as i128 * other as i128;
        i64::MIN as i128 <= wide && wide <= i64::MAX as i128
    }

    fn can_sub(self, other: Self) -> (r: bool) {
        let wide: i128 = self as i128 - other as i128;
        i64::MIN as i128 <= wide && wide <= i64::MAX as i128
    }

    fn add(self, other: Self) -> (r: Self) {
        self + other
    }

    fn mul(self, other: Self) -> (r: Self) {
        self * other
    }

    fn sub(self, other: Self) -> (r: Self) {
        self - other
    }

    proof fn law_identities_valid() {
    }

    proof fn law_mul_one(x: Self) {
    }

    proof fn law_mul_zero(x: Self) {
        assert(0 * x == 0) by (nonlinear_arith);
    }

    proof fn law_add_zero(x: Self) {
    }

    proof fn law_add_comm(a: Self, b: Self) {
    }
}

} // verus!
