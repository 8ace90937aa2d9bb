//! The shape that the entrypoint of a predicate must have:
//! `fn(&[Param], &Transaction) -> bool`.

use vstd::prelude::*;

verus! {

/// One segment of a path, such as `Vec<u8>` in `std::vec::Vec<u8>`.
#[derive(Debug)]
pub struct SegmentShape {
    pub ident: String,
    pub has_arguments: bool,
}

/// A path that names a type.
#[derive(Debug)]
pub struct PathShape {
    pub leading_colon: bool,
    pub segments: Vec<SegmentShape>,
}

/// A type, as far as the check looks into it.
#[derive(Debug)]
pub enum TypeShape {
    Reference { mutable: bool, elem: Box<TypeShape> },
    Slice { elem: Box<TypeShape> },
    Path(PathShape),
    Other,
}

/// A parameter of a function.
#[derive(Debug)]
pub enum ArgShape {
    Receiver,
    Typed(TypeShape),
}

/// What a function returns.
#[derive(Debug)]
pub enum ReturnShape {
    Default,
    Type(TypeShape),
}

/// The signature of a function.
#[derive(Debug)]
pub struct SignatureShape {
    pub inputs: Vec<ArgShape>,
    pub output: ReturnShape,
}

/// The last segment of `path` is `name`.
pub open spec fn ends_in(path: PathShape, name: Seq<char>) -> bool {
    path.segments@.len() > 0 && path.segments@.last().ident@ == name
}

/// `path` is the bare identifier `name`: a single segment without arguments
/// and without a leading `::`.
pub open spec fn is_ident(path: PathShape, name: Seq<char>) -> bool {
    &&& !path.leading_colon
    &&& path.segments@.len() == 1
    &&& !path.segments@[0].has_arguments
    &&& path.segments@[0].ident@ == name
}

/// `ty` is a shared reference to a slice of a type whose path ends in `Param`.
pub open spec fn is_param_slice(ty: TypeShape) -> bool {
    match ty {
        TypeShape::Reference { mutable: false, elem } => match *elem {
            TypeShape::Slice { elem: item } => match *item {
                TypeShape::Path(path) => ends_in(path, "Param"@),
                _ => false,
            },
            _ => false,
        },
        _ => false,
    }
}

/// `ty` is a shared reference to a type whose path ends in `Transaction`.
pub open spec fn is_transaction_ref(ty: TypeShape) -> bool {
    match ty {
        TypeShape::Reference { mutable: false, elem } => match *elem {
            TypeShape::Path(path) => ends_in(path, "Transaction"@),
            _ => false,
        },
        _ => false,
    }
}

/// A return type that is written as a path must be the bare `bool`.
pub open spec fn returns_bool(output: ReturnShape) -> bool {
    match output {
        ReturnShape::Type(TypeShape::Path(path)) => is_ident(path, "bool"@),
        _ => true,
    }
}

/// The signature is that of a predicate's entrypoint.
pub open spec fn is_predicate_signature(sig: SignatureShape) -> bool {
    &&& sig.inputs@.len() == 2
    &&& match (sig.inputs@[0], sig.inputs@[1]) {
        (ArgShape::Typed(first), ArgShape::Typed(second)) => is_param_slice(first)
            && is_transaction_ref(second),
        _ => false,
    }
    &&& returns_bool(sig.output)
}

fn path_ends_in(path: &PathShape, name: &str) -> (b: bool)
    ensures
        b == ends_in(*path, name@),
{
    let n = path.segments.len();
    if n == 0 {
        return false;
    }
    path.segments[n - 1].ident == name.to_owned()
}

fn path_is_ident(path: &PathShape, name: &str) -> (b: bool)
    ensures
        b == is_ident(*path, name@),
{
    !path.leading_colon && path.segments.len() == 1 && !path.segments[0].has_arguments
        && path.segments[0].ident == name.to_owned()
}

fn type_is_param_slice(ty: &TypeShape) -> (b: bool)
    ensures
        b == is_param_slice(*ty),
{
    match ty {
        TypeShape::Reference { mutable, elem } => {
            if *mutable {
                return false;
            }
            match &**elem {
                TypeShape::Slice { elem: item } => match &**item {
                    TypeShape::Path(path) => path_ends_in(path, "Param"),
                    _ => false,
                },
                _ => false,
            }
        },
        _ => false,
    }
}

fn type_is_transaction_ref(ty: &TypeShape) -> (b: bool)
    ensures
        b == is_transaction_ref(*ty),
{
    match ty {
        TypeShape::Reference { mutable, elem } => {
            if *mutable {
                return false;
            }
            match &**elem {
                TypeShape::Path(path) => path_ends_in(path, "Transaction"),
                _ => false,
            }
        },
        _ => false,
    }
}

/// Whether `sig` is the signature of a predicate's entrypoint: exactly two
/// parameters, `&[Param]` and `&Transaction`, and a return type that, where
/// it is written as a path, is `bool`.
pub fn verify_signature(sig: &SignatureShape) -> (ok: bool)
    ensures
        ok == is_predicate_signature(*sig),
{
    if sig.inputs.len() != 2 {
        return false;
    }
    let args_ok = match (&sig.inputs[0], &sig.inputs[1]) {
        (ArgShape::Typed(first), ArgShape::Typed(second)) => type_is_param_slice(first)
            && type_is_transaction_ref(second),
        _ => false,
    };
    if !args_ok {
        return false;
    }
    match &sig.output {
        ReturnShape::Type(TypeShape::Path(path)) => path_is_ident(path, "bool"),
        _ => true,
    }
}

} // verus!
