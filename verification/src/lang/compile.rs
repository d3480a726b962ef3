//! The types of the language and the operations of the compiler's
//! machine on them.

use vstd::prelude::*;
use crate::lang::ast::BinOp;
use crate::text::{eq_ignore_ascii_case, str_eq_ignore_ascii_case};

verus! {

#[derive(Debug, Clone, Copy, PartialEq, Eq, Structural)]
pub enum Ty {
    Float,
    Str,
    Handle,
    Color,
    Int,
}

#[derive(Debug, Clone, PartialEq)]
pub struct CompileError {
    pub line: u32,
    pub message: String,
}

/// The bytecode and the variables in the order of their indices.
#[derive(Debug, Clone, Default)]
pub struct Compiled {
    pub code: Vec<u16>,
    pub vars: Vec<(String, Ty)>,
}

/// An image function of a project or a library: the types of its
/// parameters and of its result.
#[derive(Debug, Clone, PartialEq)]
pub struct ImageFunction {
    pub params: Vec<Ty>,
    pub ret: Option<Ty>,
}

/// The type a declaration names: `STRING`, `HANDLE`, `COLORREF`,
/// `INTEGER` (without regard to ASCII case); anything else is `FLOAT`.
pub open spec fn type_named(name: Seq<char>) -> Ty {
    if eq_ignore_ascii_case(name, "STRING"@) {
        Ty::Str
    } else if eq_ignore_ascii_case(name, "HANDLE"@) {
        Ty::Handle
    } else if eq_ignore_ascii_case(name, "COLORREF"@) {
        Ty::Color
    } else if eq_ignore_ascii_case(name, "INTEGER"@) {
        Ty::Int
    } else {
        Ty::Float
    }
}

/// The name of a type as declarations write it.
pub open spec fn declared_name(t: Ty) -> Seq<char> {
    match t {
        Ty::Float => "FLOAT"@,
        Ty::Str => "STRING"@,
        Ty::Handle => "HANDLE"@,
        Ty::Color => "COLORREF"@,
        Ty::Int => "INTEGER"@,
    }
}

/// The type of a letter of the function table.
pub open spec fn type_code(c: char) -> Option<Ty> {
    if c == 'F' {
        Some(Ty::Float)
    } else if c == 'S' {
        Some(Ty::Str)
    } else if c == 'H' {
        Some(Ty::Handle)
    } else if c == 'C' {
        Some(Ty::Color)
    } else if c == 'I' {
        Some(Ty::Int)
    } else {
        None
    }
}

/// The code of a type in a call of an image function.
pub open spec fn type_vcode(t: Ty) -> u16 {
    match t {
        Ty::Float => 0xFFFF,
        Ty::Str => 0xFFFE,
        Ty::Handle => 0xFFFD,
        Ty::Color => 0xFFFC,
        Ty::Int => 0xFFFB,
    }
}

impl Ty {
    pub fn from_name(name: &str) -> (t: Ty)
        ensures
            t == type_named(name@),
    {
        if str_eq_ignore_ascii_case(name, "STRING") {
            Ty::Str
        } else if str_eq_ignore_ascii_case(name, "HANDLE") {
            Ty::Handle
        } else if str_eq_ignore_ascii_case(name, "COLORREF") {
            Ty::Color
        } else if str_eq_ignore_ascii_case(name, "INTEGER") {
            Ty::Int
        } else {
            Ty::Float
        }
    }

    pub fn name(self) -> (s: &'static str)
        ensures
            s@ == declared_name(self),
    {
        match self {
            Ty::Float => "FLOAT",
            Ty::Str => "STRING",
            Ty::Handle => "HANDLE",
            Ty::Color => "COLORREF",
            Ty::Int => "INTEGER",
        }
    }

    pub fn code(c: char) -> (t: Option<Ty>)
        ensures
            t == type_code(c),
    {
        if c == 'F' {
            Some(Ty::Float)
        } else if c == 'S' {
            Some(Ty::Str)
        } else if c == 'H' {
            Some(Ty::Handle)
        } else if c == 'C' {
            Some(Ty::Color)
        } else if c == 'I' {
            Some(Ty::Int)
        } else {
            None
        }
    }

    pub fn vcode(self) -> (v: u16)
        ensures
            v == type_vcode(self),
    {
        match self {
            Ty::Float => 0xFFFF,
            Ty::Str => 0xFFFE,
            Ty::Handle => 0xFFFD,
            Ty::Color => 0xFFFC,
            Ty::Int => 0xFFFB,
        }
    }
}

/// A whole number: HANDLE, INTEGER and COLORREF are one integer in the
/// virtual machine of Stratum 2000.
pub open spec fn is_int(t: Ty) -> bool {
    t == Ty::Handle || t == Ty::Color || t == Ty::Int
}

/// A value of type `have` can stand where `want` is asked: the same type,
/// or two whole numbers.
pub open spec fn types_compatible(have: Ty, want: Ty) -> bool {
    have == want || (is_int(have) && is_int(want))
}

pub fn compatible(have: Ty, want: Ty) -> (b: bool)
    ensures
        b == types_compatible(have, want),
{
    have == want || (have != Ty::Float && have != Ty::Str && want != Ty::Float && want != Ty::Str)
}

/// The opcode of a binary operation on two types and the type of its
/// result; `None` where the machine has none.
pub open spec fn binary_op(op: BinOp, a: Ty, b: Ty) -> Option<(u16, Ty)> {
    match (op, a, b) {
        (BinOp::Add, Ty::Float, Ty::Float) => Some((18, Ty::Float)),
        (BinOp::Add, Ty::Str, Ty::Str) => Some((124, Ty::Str)),
        (BinOp::Add, Ty::Str, Ty::Float) => Some((770, Ty::Str)),
        (BinOp::Add, Ty::Float, Ty::Str) => Some((771, Ty::Str)),
        (BinOp::Sub, Ty::Float, Ty::Float) => Some((19, Ty::Float)),
        (BinOp::Mul, Ty::Float, Ty::Float) => Some((21, Ty::Float)),
        (BinOp::Div, Ty::Float, Ty::Float) => Some((20, Ty::Float)),
        (BinOp::Mod, Ty::Float, Ty::Float) => Some((22, Ty::Float)),
        (BinOp::Pow, Ty::Float, Ty::Float) => Some((32, Ty::Float)),
        (BinOp::Eq, Ty::Float, Ty::Float) => Some((54, Ty::Float)),
        (BinOp::Ne, Ty::Float, Ty::Float) => Some((55, Ty::Float)),
        (BinOp::Gt, Ty::Float, Ty::Float) => Some((56, Ty::Float)),
        (BinOp::Ge, Ty::Float, Ty::Float) => Some((57, Ty::Float)),
        (BinOp::Lt, Ty::Float, Ty::Float) => Some((58, Ty::Float)),
        (BinOp::Le, Ty::Float, Ty::Float) => Some((59, Ty::Float)),
        (BinOp::Eq, Ty::Str, Ty::Str) => Some((144, Ty::Float)),
        (BinOp::Ne, Ty::Str, Ty::Str) => Some((145, Ty::Float)),
        (BinOp::Gt, Ty::Str, Ty::Str) => Some((146, Ty::Float)),
        (BinOp::Ge, Ty::Str, Ty::Str) => Some((147, Ty::Float)),
        (BinOp::Lt, Ty::Str, Ty::Str) => Some((148, Ty::Float)),
        (BinOp::Le, Ty::Str, Ty::Str) => Some((149, Ty::Float)),
        (BinOp::Eq, x, y) if is_int(x) && is_int(y) => Some((82, Ty::Float)),
        (BinOp::Ne, x, y) if is_int(x) && is_int(y) => Some((83, Ty::Float)),
        (BinOp::AndBit, Ty::Float, Ty::Float) => Some((105, Ty::Float)),
        (BinOp::OrBit, Ty::Float, Ty::Float) => Some((106, Ty::Float)),
        (BinOp::AndLogic, Ty::Float, Ty::Float) => Some((43, Ty::Float)),
        (BinOp::OrLogic, Ty::Float, Ty::Float) => Some((44, Ty::Float)),
        (BinOp::AndLogic, x, y) if is_int(x) && is_int(y) => Some((85, Ty::Handle)),
        (BinOp::OrLogic, x, y) if is_int(x) && is_int(y) => Some((86, Ty::Handle)),
        (BinOp::Shl, Ty::Float, Ty::Float) => Some((116, Ty::Float)),
        (BinOp::Shr, Ty::Float, Ty::Float) => Some((117, Ty::Float)),
        _ => None,
    }
}

fn int_ty(t: Ty) -> (b: bool)
    ensures
        b == is_int(t),
{
    t == Ty::Handle || t == Ty::Color || t == Ty::Int
}

pub fn binary(op: BinOp, a: Ty, b: Ty) -> (r: Option<(u16, Ty)>)
    ensures
        r == binary_op(op, a, b),
{
    match (op, a, b) {
        (BinOp::Add, Ty::Float, Ty::Float) => Some((18, Ty::Float)),
        (BinOp::Add, Ty::Str, Ty::Str) => Some((124, Ty::Str)),
        (BinOp::Add, Ty::Str, Ty::Float) => Some((770, Ty::Str)),
        (BinOp::Add, Ty::Float, Ty::Str) => Some((771, Ty::Str)),
        (BinOp::Sub, Ty::Float, Ty::Float) => Some((19, Ty::Float)),
        (BinOp::Mul, Ty::Float, Ty::Float) => Some((21, Ty::Float)),
        (BinOp::Div, Ty::Float, Ty::Float) => Some((20, Ty::Float)),
        (BinOp::Mod, Ty::Float, Ty::Float) => Some((22, Ty::Float)),
        (BinOp::Pow, Ty::Float, Ty::Float) => Some((32, Ty::Float)),
        (BinOp::Eq, Ty::Float, Ty::Float) => Some((54, Ty::Float)),
        (BinOp::Ne, Ty::Float, Ty::Float) => Some((55, Ty::Float)),
        (BinOp::Gt, Ty::Float, Ty::Float) => Some((56, Ty::Float)),
        (BinOp::Ge, Ty::Float, Ty::Float) => Some((57, Ty::Float)),
        (BinOp::Lt, Ty::Float, Ty::Float) => Some((58, Ty::Float)),
        (BinOp::Le, Ty::Float, Ty::Float) => Some((59, Ty::Float)),
        (BinOp::Eq, Ty::Str, Ty::Str) => Some((144, Ty::Float)),
        (BinOp::Ne, Ty::Str, Ty::Str) => Some((145, Ty::Float)),
        (BinOp::Gt, Ty::Str, Ty::Str) => Some((146, Ty::Float)),
        (BinOp::Ge, Ty::Str, Ty::Str) => Some((147, Ty::Float)),
        (BinOp::Lt, Ty::Str, Ty::Str) => Some((148, Ty::Float)),
        (BinOp::Le, Ty::Str, Ty::Str) => Some((149, Ty::Float)),
        (BinOp::Eq, x, y) if int_ty(x) && int_ty(y) => Some((82, Ty::Float)),
        (BinOp::Ne, x, y) if int_ty(x) && int_ty(y) => Some((83, Ty::Float)),
        (BinOp::AndBit, Ty::Float, Ty::Float) => Some((105, Ty::Float)),
        (BinOp::OrBit, Ty::Float, Ty::Float) => Some((106, Ty::Float)),
        (BinOp::AndLogic, Ty::Float, Ty::Float) => Some((43, Ty::Float)),
        (BinOp::OrLogic, Ty::Float, Ty::Float) => Some((44, Ty::Float)),
        (BinOp::AndLogic, x, y) if int_ty(x) && int_ty(y) => Some((85, Ty::Handle)),
        (BinOp::OrLogic, x, y) if int_ty(x) && int_ty(y) => Some((86, Ty::Handle)),
        (BinOp::Shl, Ty::Float, Ty::Float) => Some((116, Ty::Float)),
        (BinOp::Shr, Ty::Float, Ty::Float) => Some((117, Ty::Float)),
        _ => None,
    }
}

} // verus!
