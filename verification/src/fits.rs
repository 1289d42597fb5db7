//! Types whose values are coded, without loss, as `u64`s, small values as
//! small codes.
use vstd::prelude::*;

verus! {

/// This describes a type which can be stored in 64 bits without loss.
/// It is defined for all signed and unsigned integer types and for
/// `char`.  In each
/// case, small integers have small codes, which the collections of this
/// crate store efficiently.
pub trait Fits64: Copy {
    /// `to_u64` is defined on the value.
    spec fn spec_fits(self) -> bool;

    /// The code of the value.
    spec fn spec_to_u64(self) -> u64;

    /// `from_u64` is defined on the code.
    spec fn spec_decodes(x: u64) -> bool;

    /// The value of a code.
    spec fn spec_from_u64(x: u64) -> Self;

    /// Convert back *from* a `u64`.  This is only lossless if the `u64`
    /// originally came from type `Self`.
    fn from_u64(x: u64) -> (r: Self)
        requires
            Self::spec_decodes(x),
        ensures
            r == Self::spec_from_u64(x),
    ;

    /// Convert to a `u64`.
    fn to_u64(self) -> (r: u64)
        requires
            self.spec_fits(),
        ensures
            r == self.spec_to_u64(),
    ;

    /// The code of a value decodes to the value; a code decodes to a
    /// value that fits.
    proof fn lemma_fits64(t: Self, x: u64)
        ensures
            t.spec_fits() ==> Self::spec_decodes(t.spec_to_u64()),
            t.spec_fits() ==> Self::spec_from_u64(t.spec_to_u64()) == t,
            Self::spec_decodes(x) ==> Self::spec_from_u64(x).spec_fits(),
    ;

    /// verify that the conversion is lossless
    fn test_fits64(self) -> (r: bool)
        requires
            self.spec_fits(),
        ensures
            r,
    {
        proof {
            Self::lemma_fits64(self, 0);
            Self::lemma_fits64(Self::spec_from_u64(self.spec_to_u64()), 0);
        }
        let x = self.to_u64();
        let y = Self::from_u64(x).to_u64();
        x == y
    }
}

/// `x` is the code of a value of `T`.
pub open spec fn is_code<T: Fits64>(x: u64) -> bool {
    &&& T::spec_decodes(x)
    &&& T::spec_from_u64(x).spec_to_u64() == x
}

/// Values that fit have codes, and different values different codes.
pub proof fn lemma_code_of<T: Fits64>(t: T, u: T)
    requires
        t.spec_fits(),
        u.spec_fits(),
    ensures
        is_code::<T>(t.spec_to_u64()),
        t.spec_to_u64() == u.spec_to_u64() ==> t == u,
{
    T::lemma_fits64(t, 0);
    T::lemma_fits64(u, 0);
}

/// A code is the code of the value it decodes to.
pub proof fn lemma_decode_code<T: Fits64>(x: u64)
    requires
        is_code::<T>(x),
    ensures
        T::spec_from_u64(x).spec_fits(),
        T::spec_from_u64(x).spec_to_u64() == x,
{
    T::lemma_fits64(T::spec_from_u64(x), x);
}

impl Fits64 for u64 {
    open spec fn spec_fits(self) -> bool {
        true
    }

    open spec fn spec_to_u64(self) -> u64 {
        self
    }

    open spec fn spec_decodes(x: u64) -> bool {
        true
    }

    open spec fn spec_from_u64(x: u64) -> u64 {
        x
    }

    fn from_u64(x: u64) -> u64 {
        x
    }

    fn to_u64(self) -> u64 {
        self
    }

    proof fn lemma_fits64(t: u64, x: u64) {
        let c = <u64 as Fits64>::spec_to_u64(t);
        assert(<u64 as Fits64>::spec_fits(t) ==> <u64 as Fits64>::spec_decodes(c));
        assert(<u64 as Fits64>::spec_fits(t) ==> <u64 as Fits64>::spec_from_u64(c) == t);
        assert(<u64 as Fits64>::spec_decodes(x) ==> <u64 as Fits64>::spec_fits(<u64 as Fits64>::spec_from_u64(x)));
    }
}

impl Fits64 for u32 {
    open spec fn spec_fits(self) -> bool {
        true
    }

    open spec fn spec_to_u64(self) -> u64 {
        self as u64
    }

    open spec fn spec_decodes(x: u64) -> bool {
        x <= u32::MAX
    }

    open spec fn spec_from_u64(x: u64) -> u32 {
        x as u32
    }

    fn from_u64(x: u64) -> u32 {
        x as u32
    }

    fn to_u64(self) -> u64 {
        self as u64
    }

    proof fn lemma_fits64(t: u32, x: u64) {
        let c = <u32 as Fits64>::spec_to_u64(t);
        assert(<u32 as Fits64>::spec_fits(t) ==> <u32 as Fits64>::spec_decodes(c));
        assert(<u32 as Fits64>::spec_fits(t) ==> <u32 as Fits64>::spec_from_u64(c) == t);
        assert(<u32 as Fits64>::spec_decodes(x) ==> <u32 as Fits64>::spec_fits(<u32 as Fits64>::spec_from_u64(x)));
        assert(((t as u64) as u32) == t) by (bit_vector);
    }
}

impl Fits64 for u16 {
    open spec fn spec_fits(self) -> bool {
        true
    }

    open spec fn spec_to_u64(self) -> u64 {
        self as u64
    }

    open spec fn spec_decodes(x: u64) -> bool {
        x <= u16::MAX
    }

    open spec fn spec_from_u64(x: u64) -> u16 {
        x as u16
    }

    fn from_u64(x: u64) -> u16 {
        x as u16
    }

    fn to_u64(self) -> u64 {
        self as u64
    }

    proof fn lemma_fits64(t: u16, x: u64) {
        let c = <u16 as Fits64>::spec_to_u64(t);
        assert(<u16 as Fits64>::spec_fits(t) ==> <u16 as Fits64>::spec_decodes(c));
        assert(<u16 as Fits64>::spec_fits(t) ==> <u16 as Fits64>::spec_from_u64(c) == t);
        assert(<u16 as Fits64>::spec_decodes(x) ==> <u16 as Fits64>::spec_fits(<u16 as Fits64>::spec_from_u64(x)));
        assert(((t as u64) as u16) == t) by (bit_vector);
    }
}

impl Fits64 for u8 {
    open spec fn spec_fits(self) -> bool {
        true
    }

    open spec fn spec_to_u64(self) -> u64 {
        self as u64
    }

    open spec fn spec_decodes(x: u64) -> bool {
        x <= u8::MAX
    }

    open spec fn spec_from_u64(x: u64) -> u8 {
        x as u8
    }

    fn from_u64(x: u64) -> u8 {
        x as u8
    }

    fn to_u64(self) -> u64 {
        self as u64
    }

    proof fn lemma_fits64(t: u8, x: u64) {
        let c = <u8 as Fits64>::spec_to_u64(t);
        assert(<u8 as Fits64>::spec_fits(t) ==> <u8 as Fits64>::spec_decodes(c));
        assert(<u8 as Fits64>::spec_fits(t) ==> <u8 as Fits64>::spec_from_u64(c) == t);
        assert(<u8 as Fits64>::spec_decodes(x) ==> <u8 as Fits64>::spec_fits(<u8 as Fits64>::spec_from_u64(x)));
        assert(((t as u64) as u8) == t) by (bit_vector);
    }
}

impl Fits64 for usize {
    open spec fn spec_fits(self) -> bool {
        true
    }

    open spec fn spec_to_u64(self) -> u64 {
        self as u64
    }

    open spec fn spec_decodes(x: u64) -> bool {
        x <= usize::MAX
    }

    open spec fn spec_from_u64(x: u64) -> usize {
        x as usize
    }

    fn from_u64(x: u64) -> usize {
        x as usize
    }

    fn to_u64(self) -> u64 {
        self as u64
    }

    proof fn lemma_fits64(t: usize, x: u64) {
        let c = <usize as Fits64>::spec_to_u64(t);
        assert(<usize as Fits64>::spec_fits(t) ==> <usize as Fits64>::spec_decodes(c));
        assert(<usize as Fits64>::spec_fits(t) ==> <usize as Fits64>::spec_from_u64(c) == t);
        assert(<usize as Fits64>::spec_decodes(x) ==> <usize as Fits64>::spec_fits(<usize as Fits64>::spec_from_u64(x)));
        vstd::layout::unsigned_int_max_values();
    }
}

impl Fits64 for i64 {
    /// The smallest value has no code.
    open spec fn spec_fits(self) -> bool {
        self != i64::MIN
    }

    /// Twice the magnitude, plus one for a negative value.
    open spec fn spec_to_u64(self) -> u64 {
        if self < 0 {
            (-2 * self + 1) as u64
        } else {
            (2 * self) as u64
        }
    }

    open spec fn spec_decodes(x: u64) -> bool {
        true
    }

    open spec fn spec_from_u64(x: u64) -> i64 {
        if x % 2 == 1 {
            (-((x / 2) as int)) as i64
        } else {
            (x / 2) as i64
        }
    }

    fn from_u64(x: u64) -> i64 {
        let a = (x / 2) as i64;
        if x % 2 == 1 {
            -a
        } else {
            a
        }
    }

    fn to_u64(self) -> u64 {
        if self < 0 {
            ((-self) as u64) * 2 + 1
        } else {
            (self as u64) * 2
        }
    }

    proof fn lemma_fits64(t: i64, x: u64) {
        let c = <i64 as Fits64>::spec_to_u64(t);
        assert(<i64 as Fits64>::spec_fits(t) ==> <i64 as Fits64>::spec_decodes(c));
        assert(<i64 as Fits64>::spec_fits(t) ==> <i64 as Fits64>::spec_from_u64(c) == t);
        assert(<i64 as Fits64>::spec_decodes(x) ==> <i64 as Fits64>::spec_fits(<i64 as Fits64>::spec_from_u64(x)));
    }
}

impl Fits64 for i32 {
    /// The smallest value has no code.
    open spec fn spec_fits(self) -> bool {
        self != i32::MIN
    }

    /// Twice the magnitude, plus one for a negative value.
    open spec fn spec_to_u64(self) -> u64 {
        if self < 0 {
            (-2 * self + 1) as u64
        } else {
            (2 * self) as u64
        }
    }

    open spec fn spec_decodes(x: u64) -> bool {
        x <= 2 * (i32::MAX as int) + 1
    }

    open spec fn spec_from_u64(x: u64) -> i32 {
        if x % 2 == 1 {
            (-((x / 2) as int)) as i32
        } else {
            (x / 2) as i32
        }
    }

    fn from_u64(x: u64) -> i32 {
        let a = (x / 2) as i32;
        if x % 2 == 1 {
            -a
        } else {
            a
        }
    }

    fn to_u64(self) -> u64 {
        if self < 0 {
            ((-(self as i64)) as u64) * 2 + 1
        } else {
            (self as u64) * 2
        }
    }

    proof fn lemma_fits64(t: i32, x: u64) {
        let c = <i32 as Fits64>::spec_to_u64(t);
        assert(<i32 as Fits64>::spec_fits(t) ==> <i32 as Fits64>::spec_decodes(c));
        assert(<i32 as Fits64>::spec_fits(t) ==> <i32 as Fits64>::spec_from_u64(c) == t);
        assert(<i32 as Fits64>::spec_decodes(x) ==> <i32 as Fits64>::spec_fits(<i32 as Fits64>::spec_from_u64(x)));
    }
}

impl Fits64 for i16 {
    /// The smallest value has no code.
    open spec fn spec_fits(self) -> bool {
        self != i16::MIN
    }

    /// Twice the magnitude, plus one for a negative value.
    open spec fn spec_to_u64(self) -> u64 {
        if self < 0 {
            (-2 * self + 1) as u64
        } else {
            (2 * self) as u64
        }
    }

    open spec fn spec_decodes(x: u64) -> bool {
        x <= 2 * (i16::MAX as int) + 1
    }

    open spec fn spec_from_u64(x: u64) -> i16 {
        if x % 2 == 1 {
            (-((x / 2) as int)) as i16
        } else {
            (x / 2) as i16
        }
    }

    fn from_u64(x: u64) -> i16 {
        let a = (x / 2) as i16;
        if x % 2 == 1 {
            -a
        } else {
            a
        }
    }

    fn to_u64(self) -> u64 {
        if self < 0 {
            ((-(self as i64)) as u64) * 2 + 1
        } else {
            (self as u64) * 2
        }
    }

    proof fn lemma_fits64(t: i16, x: u64) {
        let c = <i16 as Fits64>::spec_to_u64(t);
        assert(<i16 as Fits64>::spec_fits(t) ==> <i16 as Fits64>::spec_decodes(c));
        assert(<i16 as Fits64>::spec_fits(t) ==> <i16 as Fits64>::spec_from_u64(c) == t);
        assert(<i16 as Fits64>::spec_decodes(x) ==> <i16 as Fits64>::spec_fits(<i16 as Fits64>::spec_from_u64(x)));
    }
}

impl Fits64 for i8 {
    /// The smallest value has no code.
    open spec fn spec_fits(self) -> bool {
        self != i8::MIN
    }

    /// Twice the magnitude, plus one for a negative value.
    open spec fn spec_to_u64(self) -> u64 {
        if self < 0 {
            (-2 * self + 1) as u64
        } else {
            (2 * self) as u64
        }
    }

    open spec fn spec_decodes(x: u64) -> bool {
        x <= 2 * (i8::MAX as int) + 1
    }

    open spec fn spec_from_u64(x: u64) -> i8 {
        if x % 2 == 1 {
            (-((x / 2) as int)) as i8
        } else {
            (x / 2) as i8
        }
    }

    fn from_u64(x: u64) -> i8 {
        let a = (x / 2) as i8;
        if x % 2 == 1 {
            -a
        } else {
            a
        }
    }

    fn to_u64(self) -> u64 {
        if self < 0 {
            ((-(self as i64)) as u64) * 2 + 1
        } else {
            (self as u64) * 2
        }
    }

    proof fn lemma_fits64(t: i8, x: u64) {
        let c = <i8 as Fits64>::spec_to_u64(t);
        assert(<i8 as Fits64>::spec_fits(t) ==> <i8 as Fits64>::spec_decodes(c));
        assert(<i8 as Fits64>::spec_fits(t) ==> <i8 as Fits64>::spec_from_u64(c) == t);
        assert(<i8 as Fits64>::spec_decodes(x) ==> <i8 as Fits64>::spec_fits(<i8 as Fits64>::spec_from_u64(x)));
    }
}

impl Fits64 for isize {
    /// The smallest value has no code.
    open spec fn spec_fits(self) -> bool {
        self != isize::MIN
    }

    /// Twice the magnitude, plus one for a negative value.
    open spec fn spec_to_u64(self) -> u64 {
        if self < 0 {
            (-2 * self + 1) as u64
        } else {
            (2 * self) as u64
        }
    }

    open spec fn spec_decodes(x: u64) -> bool {
        x <= 2 * (isize::MAX as int) + 1
    }

    open spec fn spec_from_u64(x: u64) -> isize {
        if x % 2 == 1 {
            (-((x / 2) as int)) as isize
        } else {
            (x / 2) as isize
        }
    }

    fn from_u64(x: u64) -> isize {
        let a = (x / 2) as isize;
        if x % 2 == 1 {
            -a
        } else {
            a
        }
    }

    fn to_u64(self) -> u64 {
        if self < 0 {
            ((-(self as i64)) as u64) * 2 + 1
        } else {
            (self as u64) * 2
        }
    }

    proof fn lemma_fits64(t: isize, x: u64) {
        let c = <isize as Fits64>::spec_to_u64(t);
        assert(<isize as Fits64>::spec_fits(t) ==> <isize as Fits64>::spec_decodes(c));
        assert(<isize as Fits64>::spec_fits(t) ==> <isize as Fits64>::spec_from_u64(c) == t);
        assert(<isize as Fits64>::spec_decodes(x) ==> <isize as Fits64>::spec_fits(<isize as Fits64>::spec_from_u64(x)));
        vstd::layout::unsigned_int_max_values();
    }
}

/// Calls std's `char::from_u32`.  Its documentation says that it gives
/// the `char` whose code is `x` when `x` is a Unicode scalar value (at
/// most 0x10FFFF and outside the surrogates 0xD800 to 0xDFFF), and `None`
/// otherwise.
#[verifier::external_body]
fn char_from_u32(x: u32) -> (r: Option<char>)
    ensures
        r is Some <==> (x <= 0x10FFFF && !(0xD800 <= x <= 0xDFFF)),
        r matches Some(c) ==> c as u32 == x,
{
    std::char::from_u32(x)
}

impl Fits64 for char {
    open spec fn spec_fits(self) -> bool {
        true
    }

    open spec fn spec_to_u64(self) -> u64 {
        self as u64
    }

    open spec fn spec_decodes(x: u64) -> bool {
        x <= 0x10FFFF && !(0xD800 <= x <= 0xDFFF)
    }

    open spec fn spec_from_u64(x: u64) -> char {
        x as char
    }

    fn from_u64(x: u64) -> char {
        match char_from_u32(x as u32) {
            Some(c) => {
                proof {
                    vstd::utf8::char_u32_cast(c, c as u32);
                    assert(c as u32 == x);
                    assert((c as u32) as char == x as char);
                }
                c
            },
            None => {
                proof {
                    assert(x as u32 == x);
                }
                '\0'
            },
        }
    }

    fn to_u64(self) -> u64 {
        self as u64
    }

    proof fn lemma_fits64(t: char, x: u64) {
        vstd::utf8::char_is_scalar(t);
        vstd::utf8::char_u32_cast(t, t as u32);
        let u = t as u32;
        assert(vstd::utf8::is_scalar(u));
        assert(u <= 0x10FFFF);
        assert(!(0xD800 <= u <= 0xDFFF));
        assert(t as u64 == u);
        assert(<char as Fits64>::spec_decodes(t as u64));
        assert((t as u64) as char == u as char);
        assert(<char as Fits64>::spec_from_u64(t as u64) == t);
        assert(<char as Fits64>::spec_to_u64(t) == t as u64);
        assert(<char as Fits64>::spec_decodes(<char as Fits64>::spec_to_u64(t)));
        assert(<char as Fits64>::spec_from_u64(<char as Fits64>::spec_to_u64(t)) == t);
    }
}

} // verus!
