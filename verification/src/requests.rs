//! Parameter types that commands carry to the remote process.

use vstd::prelude::*;

use crate::text::{int_rep, render_i32};

verus! {

/// Selects the backends a command applies to.
#[derive(Clone, Copy, Debug, Eq, PartialEq)]
pub enum BackendId<'a> {
    /// Match all backends; the wire value is `-1`.
    All,
    /// Match the backend with this numeric id.
    Id(i32),
    /// Match the backend with this name.
    Name(&'a str),
}

/// The exact text a backend selector puts on the wire.
pub open spec fn backend_id_rep(b: BackendId) -> Seq<char> {
    match b {
        BackendId::All => int_rep(-1),
        BackendId::Id(n) => int_rep(n as int),
        BackendId::Name(name) => name@,
    }
}

impl<'a> BackendId<'a> {
    /// Renders the selector as the remote process expects it.
    pub fn render(&self) -> (s: String)
        ensures
            s@ == backend_id_rep(*self),
    {
        match self {
            BackendId::All => render_i32(-1),
            BackendId::Id(n) => render_i32(*n),
            BackendId::Name(name) => String::from_str(name),
        }
    }
}

/// Narrows an error-count query to one direction of traffic.
#[derive(Clone, Copy, Debug, Eq, PartialEq, Structural)]
pub enum ErrorFlag {
    /// Count request and response errors.
    All,
    /// Count only request errors.
    Request,
    /// Count only response errors.
    Response,
}

/// The suffix a traffic-direction flag appends to `show errors`.
pub open spec fn error_flag_suffix(f: ErrorFlag) -> Seq<char> {
    match f {
        ErrorFlag::All => Seq::empty(),
        ErrorFlag::Request => " request"@,
        ErrorFlag::Response => " response"@,
    }
}

impl ErrorFlag {
    /// The rendered suffix: empty, or a space and the direction keyword.
    pub fn render(&self) -> (s: &'static str)
        ensures
            s@ == error_flag_suffix(*self),
    {
        match self {
            ErrorFlag::All => {
                let r = "";
                proof { reveal_strlit(""); }
                assert(r@ =~= Seq::<char>::empty());
                r
            },
            ErrorFlag::Request => " request",
            ErrorFlag::Response => " response",
        }
    }
}

} // verus!
