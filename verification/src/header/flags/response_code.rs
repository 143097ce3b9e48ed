//! The header's four-bit RCODE field: how the query fared.

use vstd::prelude::*;

verus! {

/// The outcome a response reports.
#[derive(Clone, Copy, Debug, PartialEq, Eq, Structural)]
pub enum ResponseCode {
    /// `0`: no error.
    NoError,
    /// `1`: the server could not read the query.
    FormatError,
    /// `2`: the server failed while handling the query.
    ServerFailure,
    /// `3`: the name asked for does not exist.
    NameError,
    /// `4`: the server does not support this kind of query.
    NotImplemented,
    /// `5`: the server will not answer, as a matter of policy.
    Refused,
    /// `6` to `15`: kept for later use, and carried as found.
    Reserved(u8),
}

impl ResponseCode {
    /// A reserved code holds a value that has no variant of its own and fits in
    /// four bits.
    pub open spec fn wf(self) -> bool {
        self matches ResponseCode::Reserved(n) ==> 6 <= n <= 15
    }

    /// The response code that a field value stands for.
    pub open spec fn of_value(value: u8) -> ResponseCode {
        if value == 0 {
            ResponseCode::NoError
        } else if value == 1 {
            ResponseCode::FormatError
        } else if value == 2 {
            ResponseCode::ServerFailure
        } else if value == 3 {
            ResponseCode::NameError
        } else if value == 4 {
            ResponseCode::NotImplemented
        } else if value == 5 {
            ResponseCode::Refused
        } else {
            ResponseCode::Reserved(value)
        }
    }

    /// The field value that stands for this response code.
    pub open spec fn spec_value(self) -> u8 {
        match self {
            ResponseCode::NoError => 0,
            ResponseCode::FormatError => 1,
            ResponseCode::ServerFailure => 2,
            ResponseCode::NameError => 3,
            ResponseCode::NotImplemented => 4,
            ResponseCode::Refused => 5,
            ResponseCode::Reserved(n) => n,
        }
    }

    /// The response code that a four-bit field value stands for.
    pub fn from(value: u8) -> (code: ResponseCode)
        requires
            value <= 15,
        ensures
            code == ResponseCode::of_value(value),
            code.wf(),
    {
        match value {
            0 => ResponseCode::NoError,
            1 => ResponseCode::FormatError,
            2 => ResponseCode::ServerFailure,
            3 => ResponseCode::NameError,
            4 => ResponseCode::NotImplemented,
            5 => ResponseCode::Refused,
            x => ResponseCode::Reserved(x),
        }
    }

    /// The field value that stands for this response code.
    pub fn value(&self) -> (value: u8)
        ensures
            value == self.spec_value(),
    {
        match self {
            ResponseCode::NoError => 0,
            ResponseCode::FormatError => 1,
            ResponseCode::ServerFailure => 2,
            ResponseCode::NameError => 3,
            ResponseCode::NotImplemented => 4,
            ResponseCode::Refused => 5,
            ResponseCode::Reserved(n) => *n,
        }
    }

    /// Whether this code is one that a header can hold.
    pub fn is_well_formed(&self) -> (ok: bool)
        ensures
            ok == self.wf(),
    {
        match self {
            ResponseCode::Reserved(n) => 6 <= *n && *n <= 15,
            _ => true,
        }
    }

    /// Every four-bit value is the value of the code it stands for, and that
    /// code is well formed.
    pub proof fn lemma_value_of_value(value: u8)
        requires
            value <= 15,
        ensures
            ResponseCode::of_value(value).wf(),
            ResponseCode::of_value(value).spec_value() == value,
    {
    }

    /// A well-formed code is the one its own value stands for, and that value
    /// fits in four bits.
    pub proof fn lemma_of_value_value(code: ResponseCode)
        requires
            code.wf(),
        ensures
            code.spec_value() <= 15,
            ResponseCode::of_value(code.spec_value()) == code,
    {
    }
}

} // verus!
