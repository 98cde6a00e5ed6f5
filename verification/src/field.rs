use vstd::prelude::*;

verus! {

/// A value read from the kernel, or the typed reason why no value is available.
#[derive(Debug, Clone)]
pub enum Field<T> {
    Value(T),
    NotCollected,
    PermissionDenied,
    Vanished,
    Unsupported,
    ParseError,
    IoError,
}

/// The availability status of a [`Field`], without its value.
#[derive(Debug, Clone, Copy, PartialEq, Eq, Structural)]
pub enum FieldStatus {
    Value,
    NotCollected,
    PermissionDenied,
    Vanished,
    Unsupported,
    ParseError,
    IoError,
}

/// What an operating-system read failure was, as far as the observer cares.
#[derive(Debug, Clone, Copy, PartialEq, Eq, Structural)]
pub enum IoFailure {
    PermissionDenied,
    NotFound,
    Unsupported,
    Other,
}

/// The status word used in every output format for a status.
pub open spec fn status_word(s: FieldStatus) -> Seq<char> {
    match s {
        FieldStatus::Value => "value"@,
        FieldStatus::NotCollected => "not_collected"@,
        FieldStatus::PermissionDenied => "permission_denied"@,
        FieldStatus::Vanished => "vanished"@,
        FieldStatus::Unsupported => "unsupported"@,
        FieldStatus::ParseError => "parse_error"@,
        FieldStatus::IoError => "io_error"@,
    }
}

/// A field of any value type that carries the given status and no value.
pub open spec fn field_of_status<U>(s: FieldStatus) -> Field<U> {
    match s {
        FieldStatus::Value => Field::ParseError,
        FieldStatus::NotCollected => Field::NotCollected,
        FieldStatus::PermissionDenied => Field::PermissionDenied,
        FieldStatus::Vanished => Field::Vanished,
        FieldStatus::Unsupported => Field::Unsupported,
        FieldStatus::ParseError => Field::ParseError,
        FieldStatus::IoError => Field::IoError,
    }
}

/// The status that a failed read of the given kind is reported as.
pub open spec fn failure_status(kind: IoFailure) -> FieldStatus {
    match kind {
        IoFailure::PermissionDenied => FieldStatus::PermissionDenied,
        IoFailure::NotFound => FieldStatus::Vanished,
        IoFailure::Unsupported => FieldStatus::Unsupported,
        IoFailure::Other => FieldStatus::IoError,
    }
}

impl<T> Field<T> {
    /// The status of this field.
    pub open spec fn kind(self) -> FieldStatus {
        match self {
            Field::Value(_) => FieldStatus::Value,
            Field::NotCollected => FieldStatus::NotCollected,
            Field::PermissionDenied => FieldStatus::PermissionDenied,
            Field::Vanished => FieldStatus::Vanished,
            Field::Unsupported => FieldStatus::Unsupported,
            Field::ParseError => FieldStatus::ParseError,
            Field::IoError => FieldStatus::IoError,
        }
    }

    /// The value, when there is one.
    pub open spec fn present(self) -> Option<T> {
        match self {
            Field::Value(v) => Some(v),
            _ => None,
        }
    }

    /// The status of this field as its status word.
    pub fn status(&self) -> (r: &'static str)
        ensures
            r@ == status_word(self.kind()),
    {
        let r = match self {
            Field::Value(_) => "value",
            Field::NotCollected => "not_collected",
            Field::PermissionDenied => "permission_denied",
            Field::Vanished => "vanished",
            Field::Unsupported => "unsupported",
            Field::ParseError => "parse_error",
            Field::IoError => "io_error",
        };
        r
    }

    /// The value, when there is one.
    pub fn value(&self) -> (r: Option<&T>)
        ensures
            match *self {
                Field::Value(v) => r == Some(&v),
                _ => r is None,
            },
    {
        match self {
            Field::Value(value) => Some(value),
            _ => None,
        }
    }

    /// Converts the value with `convert`; every failure status is kept.
    pub fn map<U>(self, convert: impl FnOnce(T) -> U) -> (r: Field<U>)
        requires
            self matches Field::Value(v) ==> convert.requires((v,)),
        ensures
            match self {
                Field::Value(v) => r matches Field::Value(u) && convert.ensures((v,), u),
                _ => r == field_of_status::<U>(self.kind()),
            },
    {
        match self {
            Field::Value(value) => Field::Value(convert(value)),
            Field::NotCollected => Field::NotCollected,
            Field::PermissionDenied => Field::PermissionDenied,
            Field::Vanished => Field::Vanished,
            Field::Unsupported => Field::Unsupported,
            Field::ParseError => Field::ParseError,
            Field::IoError => Field::IoError,
        }
    }
}

impl<T: Copy> Field<T> {
    /// A copy of the value, when there is one.
    pub fn copied(&self) -> (r: Option<T>)
        ensures
            match *self {
                Field::Value(v) => r == Some(v),
                _ => r is None,
            },
    {
        match self {
            Field::Value(value) => Some(*value),
            _ => None,
        }
    }
}

/// The field reported for a failed read of the given kind.
pub fn field_error<T>(kind: IoFailure) -> (r: Field<T>)
    ensures
        r == field_of_status::<T>(failure_status(kind)),
        r.kind() == failure_status(kind),
{
    match kind {
        IoFailure::PermissionDenied => Field::PermissionDenied,
        IoFailure::NotFound => Field::Vanished,
        IoFailure::Unsupported => Field::Unsupported,
        IoFailure::Other => Field::IoError,
    }
}

/// Carries a failure over to a field of another type; a value that could
/// not be used becomes a parse error.
pub fn map_failure<T, U>(field: &Field<T>) -> (r: Field<U>)
    ensures
        r == field_of_status::<U>(field.kind()),
{
    match field {
        Field::Value(_) => Field::ParseError,
        Field::NotCollected => Field::NotCollected,
        Field::PermissionDenied => Field::PermissionDenied,
        Field::Vanished => Field::Vanished,
        Field::Unsupported => Field::Unsupported,
        Field::ParseError => Field::ParseError,
        Field::IoError => Field::IoError,
    }
}

/// A field with its value converted by `g`; every failure status kept.
pub open spec fn mapped<T, U>(f: Field<T>, g: spec_fn(T) -> U) -> Field<U> {
    match f {
        Field::Value(v) => Field::Value(g(v)),
        _ => field_of_status(f.kind()),
    }
}

/// Converting with the identity changes nothing, and converting twice is
/// converting once with the composed function.
pub proof fn lemma_map_laws<T, U, V>(f: Field<T>, g: spec_fn(T) -> U, h: spec_fn(U) -> V)
    ensures
        mapped(f, |x: T| x) == f,
        mapped(mapped(f, g), h) == mapped(f, |x: T| h(g(x))),
{
}

/// What `map` returns is the conversion by any function that describes
/// what the closure returns.
pub proof fn lemma_map_is_mapped<T, U>(f: Field<T>, r: Field<U>, g: spec_fn(T) -> U)
    requires
        match f {
            Field::Value(v) => r matches Field::Value(u) && u == g(v),
            _ => r == field_of_status::<U>(f.kind()),
        },
    ensures
        r == mapped(f, g),
{
}

} // verus!
