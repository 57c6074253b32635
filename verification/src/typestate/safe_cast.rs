//! Safe numeric casts.
//!
//! - [`SafeCast`] is an *infallible* widening cast (e.g. `u8 -> u32`) that can
//!   never lose information.
//! - [`TrySafeCast`] is a *fallible* narrowing cast (e.g. `u32 -> u8`) that
//!   returns [`CastError`] instead of silently truncating.
//!
//! Every cast here is between integer types; a cast keeps the numeric value.
use vstd::prelude::*;

verus! {

/// Error returned by a failed [`TrySafeCast`].
#[derive(Clone, Copy, Debug, PartialEq, Eq)]
pub struct CastError {
    from: &'static str,
    to: &'static str,
}

impl CastError {
    /// The name of the source type.
    pub closed spec fn spec_from(&self) -> Seq<char> {
        self.from@
    }

    /// The name of the target type.
    pub closed spec fn spec_to(&self) -> Seq<char> {
        self.to@
    }

    /// The type name of the source value.
    pub fn from_type(&self) -> (r: &'static str)
        ensures
            r@ == self.spec_from(),
    {
        self.from
    }

    /// The type name of the target value.
    pub fn to_type(&self) -> (r: &'static str)
        ensures
            r@ == self.spec_to(),
    {
        self.to
    }

    /// The report text: `"safe cast from <from> to <to> out of range or lossy"`.
    pub fn message(&self) -> (r: String)
        ensures
            r@ == "safe cast from "@ + self.spec_from() + " to "@ + self.spec_to() + " out of range or lossy"@,
    {
        let mut s = String::from_str("safe cast from ");
        s.append(self.from);
        s.append(" to ");
        s.append(self.to);
        s.append(" out of range or lossy");
        s
    }
}

/// A failed cast names the source and target types.
pub open spec fn err_names<T>(r: Result<T, CastError>, from: Seq<char>, to: Seq<char>) -> bool {
    r matches Err(e) ==> e.spec_from() == from && e.spec_to() == to
}

/// Infallible widening cast. Implement only for casts that cannot lose
/// information.
pub trait SafeCast<T>: Sized {
    /// `out` is this value, converted without loss.
    spec fn widens_to(&self, out: &T) -> bool;

    /// Perform the widening cast.
    fn safe_cast(self) -> (r: T)
        ensures
            self.widens_to(&r),
    ;
}

/// Fallible narrowing cast.
pub trait TrySafeCast<T>: Sized {
    /// Error type on failure.
    type Error;

    /// Whether this value can be represented in `T`.
    spec fn fits(&self) -> bool;

    /// `out` is this value, converted without loss.
    spec fn narrows_to(&self, out: &T) -> bool;

    /// `e` is the error this cast reports: it names the source and target
    /// types.
    spec fn reports(&self, e: &Self::Error) -> bool;

    /// Attempt the cast, returning an error instead of truncating.
    fn try_safe_cast(self) -> (r: Result<T, Self::Error>)
        ensures
            r is Ok <==> self.fits(),
            r matches Ok(v) ==> self.narrows_to(&v),
            r matches Err(e) ==> self.reports(&e),
    ;
}

impl SafeCast<u16> for u8 {
    open spec fn widens_to(&self, out: &u16) -> bool {
        *out as int == *self as int
    }

    fn safe_cast(self) -> (r: u16) {
        self as u16
    }
}

impl SafeCast<u32> for u8 {
    open spec fn widens_to(&self, out: &u32) -> bool {
        *out as int == *self as int
    }

    fn safe_cast(self) -> (r: u32) {
        self as u32
    }
}

impl SafeCast<u64> for u8 {
    open spec fn widens_to(&self, out: &u64) -> bool {
        *out as int == *self as int
    }

    fn safe_cast(self) -> (r: u64) {
        self as u64
    }
}

impl SafeCast<u128> for u8 {
    open spec fn widens_to(&self, out: &u128) -> bool {
        *out as int == *self as int
    }

    fn safe_cast(self) -> (r: u128) {
        self as u128
    }
}

impl SafeCast<i16> for u8 {
    open spec fn widens_to(&self, out: &i16) -> bool {
        *out as int == *self as int
    }

    fn safe_cast(self) -> (r: i16) {
        self as i16
    }
}

impl SafeCast<i32> for u8 {
    open spec fn widens_to(&self, out: &i32) -> bool {
        *out as int == *self as int
    }

    fn safe_cast(self) -> (r: i32) {
        self as i32
    }
}

impl SafeCast<i64> for u8 {
    open spec fn widens_to(&self, out: &i64) -> bool {
        *out as int == *self as int
    }

    fn safe_cast(self) -> (r: i64) {
        self as i64
    }
}

impl SafeCast<i128> for u8 {
    open spec fn widens_to(&self, out: &i128) -> bool {
        *out as int == *self as int
    }

    fn safe_cast(self) -> (r: i128) {
        self as i128
    }
}

impl SafeCast<usize> for u8 {
    open spec fn widens_to(&self, out: &usize) -> bool {
        *out as int == *self as int
    }

    fn safe_cast(self) -> (r: usize) {
        self as usize
    }
}

impl SafeCast<isize> for u8 {
    open spec fn widens_to(&self, out: &isize) -> bool {
        *out as int == *self as int
    }

    fn safe_cast(self) -> (r: isize) {
        self as isize
    }
}

impl SafeCast<u32> for u16 {
    open spec fn widens_to(&self, out: &u32) -> bool {
        *out as int == *self as int
    }

    fn safe_cast(self) -> (r: u32) {
        self as u32
    }
}

impl SafeCast<u64> for u16 {
    open spec fn widens_to(&self, out: &u64) -> bool {
        *out as int == *self as int
    }

    fn safe_cast(self) -> (r: u64) {
        self as u64
    }
}

impl SafeCast<u128> for u16 {
    open spec fn widens_to(&self, out: &u128) -> bool {
        *out as int == *self as int
    }

    fn safe_cast(self) -> (r: u128) {
        self as u128
    }
}

impl SafeCast<i32> for u16 {
    open spec fn widens_to(&self, out: &i32) -> bool {
        *out as int == *self as int
    }

    fn safe_cast(self) -> (r: i32) {
        self as i32
    }
}

impl SafeCast<i64> for u16 {
    open spec fn widens_to(&self, out: &i64) -> bool {
        *out as int == *self as int
    }

    fn safe_cast(self) -> (r: i64) {
        self as i64
    }
}

impl SafeCast<i128> for u16 {
    open spec fn widens_to(&self, out: &i128) -> bool {
        *out as int == *self as int
    }

    fn safe_cast(self) -> (r: i128) {
        self as i128
    }
}

impl SafeCast<usize> for u16 {
    open spec fn widens_to(&self, out: &usize) -> bool {
        *out as int == *self as int
    }

    fn safe_cast(self) -> (r: usize) {
        self as usize
    }
}

impl SafeCast<u64> for u32 {
    open spec fn widens_to(&self, out: &u64) -> bool {
        *out as int == *self as int
    }

    fn safe_cast(self) -> (r: u64) {
        self as u64
    }
}

impl SafeCast<u128> for u32 {
    open spec fn widens_to(&self, out: &u128) -> bool {
        *out as int == *self as int
    }

    fn safe_cast(self) -> (r: u128) {
        self as u128
    }
}

impl SafeCast<i64> for u32 {
    open spec fn widens_to(&self, out: &i64) -> bool {
        *out as int == *self as int
    }

    fn safe_cast(self) -> (r: i64) {
        self as i64
    }
}

impl SafeCast<i128> for u32 {
    open spec fn widens_to(&self, out: &i128) -> bool {
        *out as int == *self as int
    }

    fn safe_cast(self) -> (r: i128) {
        self as i128
    }
}

impl SafeCast<u128> for u64 {
    open spec fn widens_to(&self, out: &u128) -> bool {
        *out as int == *self as int
    }

    fn safe_cast(self) -> (r: u128) {
        self as u128
    }
}

impl SafeCast<i128> for u64 {
    open spec fn widens_to(&self, out: &i128) -> bool {
        *out as int == *self as int
    }

    fn safe_cast(self) -> (r: i128) {
        self as i128
    }
}

impl SafeCast<i16> for i8 {
    open spec fn widens_to(&self, out: &i16) -> bool {
        *out as int == *self as int
    }

    fn safe_cast(self) -> (r: i16) {
        self as i16
    }
}

impl SafeCast<i32> for i8 {
    open spec fn widens_to(&self, out: &i32) -> bool {
        *out as int == *self as int
    }

    fn safe_cast(self) -> (r: i32) {
        self as i32
    }
}

impl SafeCast<i64> for i8 {
    open spec fn widens_to(&self, out: &i64) -> bool {
        *out as int == *self as int
    }

    fn safe_cast(self) -> (r: i64) {
        self as i64
    }
}

impl SafeCast<i128> for i8 {
    open spec fn widens_to(&self, out: &i128) -> bool {
        *out as int == *self as int
    }

    fn safe_cast(self) -> (r: i128) {
        self as i128
    }
}

impl SafeCast<i32> for i16 {
    open spec fn widens_to(&self, out: &i32) -> bool {
        *out as int == *self as int
    }

    fn safe_cast(self) -> (r: i32) {
        self as i32
    }
}

impl SafeCast<i64> for i16 {
    open spec fn widens_to(&self, out: &i64) -> bool {
        *out as int == *self as int
    }

    fn safe_cast(self) -> (r: i64) {
        self as i64
    }
}

impl SafeCast<i128> for i16 {
    open spec fn widens_to(&self, out: &i128) -> bool {
        *out as int == *self as int
    }

    fn safe_cast(self) -> (r: i128) {
        self as i128
    }
}

impl SafeCast<i64> for i32 {
    open spec fn widens_to(&self, out: &i64) -> bool {
        *out as int == *self as int
    }

    fn safe_cast(self) -> (r: i64) {
        self as i64
    }
}

impl SafeCast<i128> for i32 {
    open spec fn widens_to(&self, out: &i128) -> bool {
        *out as int == *self as int
    }

    fn safe_cast(self) -> (r: i128) {
        self as i128
    }
}

impl SafeCast<i128> for i64 {
    open spec fn widens_to(&self, out: &i128) -> bool {
        *out as int == *self as int
    }

    fn safe_cast(self) -> (r: i128) {
        self as i128
    }
}

impl TrySafeCast<u8> for u16 {
    type Error = CastError;

    open spec fn reports(&self, e: &CastError) -> bool {
        e.spec_from() == "u16"@ && e.spec_to() == "u8"@
    }

    open spec fn fits(&self) -> bool {
        u8::MIN <= *self as int <= u8::MAX
    }

    open spec fn narrows_to(&self, out: &u8) -> bool {
        *out as int == *self as int
    }

    fn try_safe_cast(self) -> (r: Result<u8, CastError>)
        ensures
            err_names::<u8>(r, "u16"@, "u8"@),
    {
        let err = CastError { from: "u16", to: "u8" };
        if self < (u8::MIN as u16) || self > (u8::MAX as u16) {
            return Err(err);
        }
        Ok(self as u8)
    }
}

impl TrySafeCast<u8> for u32 {
    type Error = CastError;

    open spec fn reports(&self, e: &CastError) -> bool {
        e.spec_from() == "u32"@ && e.spec_to() == "u8"@
    }

    open spec fn fits(&self) -> bool {
        u8::MIN <= *self as int <= u8::MAX
    }

    open spec fn narrows_to(&self, out: &u8) -> bool {
        *out as int == *self as int
    }

    fn try_safe_cast(self) -> (r: Result<u8, CastError>)
        ensures
            err_names::<u8>(r, "u32"@, "u8"@),
    {
        let err = CastError { from: "u32", to: "u8" };
        if self < (u8::MIN as u32) || self > (u8::MAX as u32) {
            return Err(err);
        }
        Ok(self as u8)
    }
}

impl TrySafeCast<u16> for u32 {
    type Error = CastError;

    open spec fn reports(&self, e: &CastError) -> bool {
        e.spec_from() == "u32"@ && e.spec_to() == "u16"@
    }

    open spec fn fits(&self) -> bool {
        u16::MIN <= *self as int <= u16::MAX
    }

    open spec fn narrows_to(&self, out: &u16) -> bool {
        *out as int == *self as int
    }

    fn try_safe_cast(self) -> (r: Result<u16, CastError>)
        ensures
            err_names::<u16>(r, "u32"@, "u16"@),
    {
        let err = CastError { from: "u32", to: "u16" };
        if self < (u16::MIN as u32) || self > (u16::MAX as u32) {
            return Err(err);
        }
        Ok(self as u16)
    }
}

impl TrySafeCast<u8> for u64 {
    type Error = CastError;

    open spec fn reports(&self, e: &CastError) -> bool {
        e.spec_from() == "u64"@ && e.spec_to() == "u8"@
    }

    open spec fn fits(&self) -> bool {
        u8::MIN <= *self as int <= u8::MAX
    }

    open spec fn narrows_to(&self, out: &u8) -> bool {
        *out as int == *self as int
    }

    fn try_safe_cast(self) -> (r: Result<u8, CastError>)
        ensures
            err_names::<u8>(r, "u64"@, "u8"@),
    {
        let err = CastError { from: "u64", to: "u8" };
        if self < (u8::MIN as u64) || self > (u8::MAX as u64) {
            return Err(err);
        }
        Ok(self as u8)
    }
}

impl TrySafeCast<u16> for u64 {
    type Error = CastError;

    open spec fn reports(&self, e: &CastError) -> bool {
        e.spec_from() == "u64"@ && e.spec_to() == "u16"@
    }

    open spec fn fits(&self) -> bool {
        u16::MIN <= *self as int <= u16::MAX
    }

    open spec fn narrows_to(&self, out: &u16) -> bool {
        *out as int == *self as int
    }

    fn try_safe_cast(self) -> (r: Result<u16, CastError>)
        ensures
            err_names::<u16>(r, "u64"@, "u16"@),
    {
        let err = CastError { from: "u64", to: "u16" };
        if self < (u16::MIN as u64) || self > (u16::MAX as u64) {
            return Err(err);
        }
        Ok(self as u16)
    }
}

impl TrySafeCast<u32> for u64 {
    type Error = CastError;

    open spec fn reports(&self, e: &CastError) -> bool {
        e.spec_from() == "u64"@ && e.spec_to() == "u32"@
    }

    open spec fn fits(&self) -> bool {
        u32::MIN <= *self as int <= u32::MAX
    }

    open spec fn narrows_to(&self, out: &u32) -> bool {
        *out as int == *self as int
    }

    fn try_safe_cast(self) -> (r: Result<u32, CastError>)
        ensures
            err_names::<u32>(r, "u64"@, "u32"@),
    {
        let err = CastError { from: "u64", to: "u32" };
        if self < (u32::MIN as u64) || self > (u32::MAX as u64) {
            return Err(err);
        }
        Ok(self as u32)
    }
}

impl TrySafeCast<u8> for u128 {
    type Error = CastError;

    open spec fn reports(&self, e: &CastError) -> bool {
        e.spec_from() == "u128"@ && e.spec_to() == "u8"@
    }

    open spec fn fits(&self) -> bool {
        u8::MIN <= *self as int <= u8::MAX
    }

    open spec fn narrows_to(&self, out: &u8) -> bool {
        *out as int == *self as int
    }

    fn try_safe_cast(self) -> (r: Result<u8, CastError>)
        ensures
            err_names::<u8>(r, "u128"@, "u8"@),
    {
        let err = CastError { from: "u128", to: "u8" };
        if self < (u8::MIN as u128) || self > (u8::MAX as u128) {
            return Err(err);
        }
        Ok(self as u8)
    }
}

impl TrySafeCast<u16> for u128 {
    type Error = CastError;

    open spec fn reports(&self, e: &CastError) -> bool {
        e.spec_from() == "u128"@ && e.spec_to() == "u16"@
    }

    open spec fn fits(&self) -> bool {
        u16::MIN <= *self as int <= u16::MAX
    }

    open spec fn narrows_to(&self, out: &u16) -> bool {
        *out as int == *self as int
    }

    fn try_safe_cast(self) -> (r: Result<u16, CastError>)
        ensures
            err_names::<u16>(r, "u128"@, "u16"@),
    {
        let err = CastError { from: "u128", to: "u16" };
        if self < (u16::MIN as u128) || self > (u16::MAX as u128) {
            return Err(err);
        }
        Ok(self as u16)
    }
}

impl TrySafeCast<u32> for u128 {
    type Error = CastError;

    open spec fn reports(&self, e: &CastError) -> bool {
        e.spec_from() == "u128"@ && e.spec_to() == "u32"@
    }

    open spec fn fits(&self) -> bool {
        u32::MIN <= *self as int <= u32::MAX
    }

    open spec fn narrows_to(&self, out: &u32) -> bool {
        *out as int == *self as int
    }

    fn try_safe_cast(self) -> (r: Result<u32, CastError>)
        ensures
            err_names::<u32>(r, "u128"@, "u32"@),
    {
        let err = CastError { from: "u128", to: "u32" };
        if self < (u32::MIN as u128) || self > (u32::MAX as u128) {
            return Err(err);
        }
        Ok(self as u32)
    }
}

impl TrySafeCast<u64> for u128 {
    type Error = CastError;

    open spec fn reports(&self, e: &CastError) -> bool {
        e.spec_from() == "u128"@ && e.spec_to() == "u64"@
    }

    open spec fn fits(&self) -> bool {
        u64::MIN <= *self as int <= u64::MAX
    }

    open spec fn narrows_to(&self, out: &u64) -> bool {
        *out as int == *self as int
    }

    fn try_safe_cast(self) -> (r: Result<u64, CastError>)
        ensures
            err_names::<u64>(r, "u128"@, "u64"@),
    {
        let err = CastError { from: "u128", to: "u64" };
        if self < (u64::MIN as u128) || self > (u64::MAX as u128) {
            return Err(err);
        }
        Ok(self as u64)
    }
}

impl TrySafeCast<u8> for usize {
    type Error = CastError;

    open spec fn reports(&self, e: &CastError) -> bool {
        e.spec_from() == "usize"@ && e.spec_to() == "u8"@
    }

    open spec fn fits(&self) -> bool {
        u8::MIN <= *self as int <= u8::MAX
    }

    open spec fn narrows_to(&self, out: &u8) -> bool {
        *out as int == *self as int
    }

    fn try_safe_cast(self) -> (r: Result<u8, CastError>)
        ensures
            err_names::<u8>(r, "usize"@, "u8"@),
    {
        let err = CastError { from: "usize", to: "u8" };
        if self < (u8::MIN as usize) || self > (u8::MAX as usize) {
            return Err(err);
        }
        Ok(self as u8)
    }
}

impl TrySafeCast<u16> for usize {
    type Error = CastError;

    open spec fn reports(&self, e: &CastError) -> bool {
        e.spec_from() == "usize"@ && e.spec_to() == "u16"@
    }

    open spec fn fits(&self) -> bool {
        u16::MIN <= *self as int <= u16::MAX
    }

    open spec fn narrows_to(&self, out: &u16) -> bool {
        *out as int == *self as int
    }

    fn try_safe_cast(self) -> (r: Result<u16, CastError>)
        ensures
            err_names::<u16>(r, "usize"@, "u16"@),
    {
        let err = CastError { from: "usize", to: "u16" };
        if self < (u16::MIN as usize) || self > (u16::MAX as usize) {
            return Err(err);
        }
        Ok(self as u16)
    }
}

impl TrySafeCast<u32> for usize {
    type Error = CastError;

    open spec fn reports(&self, e: &CastError) -> bool {
        e.spec_from() == "usize"@ && e.spec_to() == "u32"@
    }

    open spec fn fits(&self) -> bool {
        u32::MIN <= *self as int <= u32::MAX
    }

    open spec fn narrows_to(&self, out: &u32) -> bool {
        *out as int == *self as int
    }

    fn try_safe_cast(self) -> (r: Result<u32, CastError>)
        ensures
            err_names::<u32>(r, "usize"@, "u32"@),
    {
        let err = CastError { from: "usize", to: "u32" };
        if self < (u32::MIN as usize) || self > (u32::MAX as usize) {
            return Err(err);
        }
        Ok(self as u32)
    }
}

impl TrySafeCast<i8> for i16 {
    type Error = CastError;

    open spec fn reports(&self, e: &CastError) -> bool {
        e.spec_from() == "i16"@ && e.spec_to() == "i8"@
    }

    open spec fn fits(&self) -> bool {
        i8::MIN <= *self as int <= i8::MAX
    }

    open spec fn narrows_to(&self, out: &i8) -> bool {
        *out as int == *self as int
    }

    fn try_safe_cast(self) -> (r: Result<i8, CastError>)
        ensures
            err_names::<i8>(r, "i16"@, "i8"@),
    {
        let err = CastError { from: "i16", to: "i8" };
        if self < (i8::MIN as i16) || self > (i8::MAX as i16) {
            return Err(err);
        }
        Ok(self as i8)
    }
}

impl TrySafeCast<i8> for i32 {
    type Error = CastError;

    open spec fn reports(&self, e: &CastError) -> bool {
        e.spec_from() == "i32"@ && e.spec_to() == "i8"@
    }

    open spec fn fits(&self) -> bool {
        i8::MIN <= *self as int <= i8::MAX
    }

    open spec fn narrows_to(&self, out: &i8) -> bool {
        *out as int == *self as int
    }

    fn try_safe_cast(self) -> (r: Result<i8, CastError>)
        ensures
            err_names::<i8>(r, "i32"@, "i8"@),
    {
        let err = CastError { from: "i32", to: "i8" };
        if self < (i8::MIN as i32) || self > (i8::MAX as i32) {
            return Err(err);
        }
        Ok(self as i8)
    }
}

impl TrySafeCast<i16> for i32 {
    type Error = CastError;

    open spec fn reports(&self, e: &CastError) -> bool {
        e.spec_from() == "i32"@ && e.spec_to() == "i16"@
    }

    open spec fn fits(&self) -> bool {
        i16::MIN <= *self as int <= i16::MAX
    }

    open spec fn narrows_to(&self, out: &i16) -> bool {
        *out as int == *self as int
    }

    fn try_safe_cast(self) -> (r: Result<i16, CastError>)
        ensures
            err_names::<i16>(r, "i32"@, "i16"@),
    {
        let err = CastError { from: "i32", to: "i16" };
        if self < (i16::MIN as i32) || self > (i16::MAX as i32) {
            return Err(err);
        }
        Ok(self as i16)
    }
}

impl TrySafeCast<i8> for i64 {
    type Error = CastError;

    open spec fn reports(&self, e: &CastError) -> bool {
        e.spec_from() == "i64"@ && e.spec_to() == "i8"@
    }

    open spec fn fits(&self) -> bool {
        i8::MIN <= *self as int <= i8::MAX
    }

    open spec fn narrows_to(&self, out: &i8) -> bool {
        *out as int == *self as int
    }

    fn try_safe_cast(self) -> (r: Result<i8, CastError>)
        ensures
            err_names::<i8>(r, "i64"@, "i8"@),
    {
        let err = CastError { from: "i64", to: "i8" };
        if self < (i8::MIN as i64) || self > (i8::MAX as i64) {
            return Err(err);
        }
        Ok(self as i8)
    }
}

impl TrySafeCast<i16> for i64 {
    type Error = CastError;

    open spec fn reports(&self, e: &CastError) -> bool {
        e.spec_from() == "i64"@ && e.spec_to() == "i16"@
    }

    open spec fn fits(&self) -> bool {
        i16::MIN <= *self as int <= i16::MAX
    }

    open spec fn narrows_to(&self, out: &i16) -> bool {
        *out as int == *self as int
    }

    fn try_safe_cast(self) -> (r: Result<i16, CastError>)
        ensures
            err_names::<i16>(r, "i64"@, "i16"@),
    {
        let err = CastError { from: "i64", to: "i16" };
        if self < (i16::MIN as i64) || self > (i16::MAX as i64) {
            return Err(err);
        }
        Ok(self as i16)
    }
}

impl TrySafeCast<i32> for i64 {
    type Error = CastError;

    open spec fn reports(&self, e: &CastError) -> bool {
        e.spec_from() == "i64"@ && e.spec_to() == "i32"@
    }

    open spec fn fits(&self) -> bool {
        i32::MIN <= *self as int <= i32::MAX
    }

    open spec fn narrows_to(&self, out: &i32) -> bool {
        *out as int == *self as int
    }

    fn try_safe_cast(self) -> (r: Result<i32, CastError>)
        ensures
            err_names::<i32>(r, "i64"@, "i32"@),
    {
        let err = CastError { from: "i64", to: "i32" };
        if self < (i32::MIN as i64) || self > (i32::MAX as i64) {
            return Err(err);
        }
        Ok(self as i32)
    }
}

impl TrySafeCast<i8> for i128 {
    type Error = CastError;

    open spec fn reports(&self, e: &CastError) -> bool {
        e.spec_from() == "i128"@ && e.spec_to() == "i8"@
    }

    open spec fn fits(&self) -> bool {
        i8::MIN <= *self as int <= i8::MAX
    }

    open spec fn narrows_to(&self, out: &i8) -> bool {
        *out as int == *self as int
    }

    fn try_safe_cast(self) -> (r: Result<i8, CastError>)
        ensures
            err_names::<i8>(r, "i128"@, "i8"@),
    {
        let err = CastError { from: "i128", to: "i8" };
        if self < (i8::MIN as i128) || self > (i8::MAX as i128) {
            return Err(err);
        }
        Ok(self as i8)
    }
}

impl TrySafeCast<i16> for i128 {
    type Error = CastError;

    open spec fn reports(&self, e: &CastError) -> bool {
        e.spec_from() == "i128"@ && e.spec_to() == "i16"@
    }

    open spec fn fits(&self) -> bool {
        i16::MIN <= *self as int <= i16::MAX
    }

    open spec fn narrows_to(&self, out: &i16) -> bool {
        *out as int == *self as int
    }

    fn try_safe_cast(self) -> (r: Result<i16, CastError>)
        ensures
            err_names::<i16>(r, "i128"@, "i16"@),
    {
        let err = CastError { from: "i128", to: "i16" };
        if self < (i16::MIN as i128) || self > (i16::MAX as i128) {
            return Err(err);
        }
        Ok(self as i16)
    }
}

impl TrySafeCast<i32> for i128 {
    type Error = CastError;

    open spec fn reports(&self, e: &CastError) -> bool {
        e.spec_from() == "i128"@ && e.spec_to() == "i32"@
    }

    open spec fn fits(&self) -> bool {
        i32::MIN <= *self as int <= i32::MAX
    }

    open spec fn narrows_to(&self, out: &i32) -> bool {
        *out as int == *self as int
    }

    fn try_safe_cast(self) -> (r: Result<i32, CastError>)
        ensures
            err_names::<i32>(r, "i128"@, "i32"@),
    {
        let err = CastError { from: "i128", to: "i32" };
        if self < (i32::MIN as i128) || self > (i32::MAX as i128) {
            return Err(err);
        }
        Ok(self as i32)
    }
}

impl TrySafeCast<i64> for i128 {
    type Error = CastError;

    open spec fn reports(&self, e: &CastError) -> bool {
        e.spec_from() == "i128"@ && e.spec_to() == "i64"@
    }

    open spec fn fits(&self) -> bool {
        i64::MIN <= *self as int <= i64::MAX
    }

    open spec fn narrows_to(&self, out: &i64) -> bool {
        *out as int == *self as int
    }

    fn try_safe_cast(self) -> (r: Result<i64, CastError>)
        ensures
            err_names::<i64>(r, "i128"@, "i64"@),
    {
        let err = CastError { from: "i128", to: "i64" };
        if self < (i64::MIN as i128) || self > (i64::MAX as i128) {
            return Err(err);
        }
        Ok(self as i64)
    }
}

impl TrySafeCast<i8> for isize {
    type Error = CastError;

    open spec fn reports(&self, e: &CastError) -> bool {
        e.spec_from() == "isize"@ && e.spec_to() == "i8"@
    }

    open spec fn fits(&self) -> bool {
        i8::MIN <= *self as int <= i8::MAX
    }

    open spec fn narrows_to(&self, out: &i8) -> bool {
        *out as int == *self as int
    }

    fn try_safe_cast(self) -> (r: Result<i8, CastError>)
        ensures
            err_names::<i8>(r, "isize"@, "i8"@),
    {
        let err = CastError { from: "isize", to: "i8" };
        if self < (i8::MIN as isize) || self > (i8::MAX as isize) {
            return Err(err);
        }
        Ok(self as i8)
    }
}

impl TrySafeCast<i16> for isize {
    type Error = CastError;

    open spec fn reports(&self, e: &CastError) -> bool {
        e.spec_from() == "isize"@ && e.spec_to() == "i16"@
    }

    open spec fn fits(&self) -> bool {
        i16::MIN <= *self as int <= i16::MAX
    }

    open spec fn narrows_to(&self, out: &i16) -> bool {
        *out as int == *self as int
    }

    fn try_safe_cast(self) -> (r: Result<i16, CastError>)
        ensures
            err_names::<i16>(r, "isize"@, "i16"@),
    {
        let err = CastError { from: "isize", to: "i16" };
        if self < (i16::MIN as isize) || self > (i16::MAX as isize) {
            return Err(err);
        }
        Ok(self as i16)
    }
}

impl TrySafeCast<i32> for isize {
    type Error = CastError;

    open spec fn reports(&self, e: &CastError) -> bool {
        e.spec_from() == "isize"@ && e.spec_to() == "i32"@
    }

    open spec fn fits(&self) -> bool {
        i32::MIN <= *self as int <= i32::MAX
    }

    open spec fn narrows_to(&self, out: &i32) -> bool {
        *out as int == *self as int
    }

    fn try_safe_cast(self) -> (r: Result<i32, CastError>)
        ensures
            err_names::<i32>(r, "isize"@, "i32"@),
    {
        let err = CastError { from: "isize", to: "i32" };
        if self < (i32::MIN as isize) || self > (i32::MAX as isize) {
            return Err(err);
        }
        Ok(self as i32)
    }
}

/// Convert `T` into `U` via [`SafeCast`].
pub fn safe_cast<T, U>(value: T) -> (r: U) where T: SafeCast<U>
    ensures
        value.widens_to(&r),
{
    value.safe_cast()
}

/// Convert `T` into `U` via [`TrySafeCast`].
pub fn try_safe_cast<T, U>(value: T) -> (r: Result<U, <T as TrySafeCast<U>>::Error>) where
    T: TrySafeCast<U>,

    ensures
        r is Ok <==> value.fits(),
        r matches Ok(v) ==> value.narrows_to(&v),
        r matches Err(e) ==> value.reports(&e),
{
    value.try_safe_cast()
}

} // verus!
