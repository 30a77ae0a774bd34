//! How a runtime error names where the value it is about came from.
use vstd::prelude::*;
use vstd::string::{StrSliceExecFns, StringSliceAdditionalSpecFns};

verus! {

/// Where the value in a register came from, told the way an error message names it.
#[derive(Debug, Clone, PartialEq, Eq)]
pub enum Origin {
    Local(Vec<u8>),
    Upvalue(Vec<u8>),
    Constant(Vec<u8>),
    Global(Vec<u8>),
    Field(Vec<u8>),
    Method(Vec<u8>),
}

/// The word a message puts before the name.
pub open spec fn origin_word(origin: Origin) -> Seq<char> {
    match origin {
        Origin::Local(_) => "local"@,
        Origin::Upvalue(_) => "upvalue"@,
        Origin::Constant(_) => "constant"@,
        Origin::Global(_) => "global"@,
        Origin::Field(_) => "field"@,
        Origin::Method(_) => "method"@,
    }
}

/// The name the origin carries.
pub open spec fn origin_name(origin: Origin) -> Seq<u8> {
    match origin {
        Origin::Local(name) => name@,
        Origin::Upvalue(name) => name@,
        Origin::Constant(name) => name@,
        Origin::Global(name) => name@,
        Origin::Field(name) => name@,
        Origin::Method(name) => name@,
    }
}

/// `local 'x'`, `field 'y'`, and the rest.
pub open spec fn rendered(origin: Origin) -> Seq<u8> {
    vstd::utf8::encode_utf8(origin_word(origin)) + " '".spec_bytes() + origin_name(origin) + seq![0x27u8]
}

/// The clause a message adds for a value it could name: ` (local 'x')`, or nothing.
pub open spec fn clause_of(found: Option<Seq<u8>>) -> Seq<u8> {
    match found {
        Some(name) => " (".spec_bytes() + name + ")".spec_bytes(),
        None => Seq::empty(),
    }
}

impl Origin {
    pub fn parts(self) -> (parts: (&'static str, Vec<u8>))
        ensures
            parts.0@ == origin_word(self),
            parts.1@ == origin_name(self),
    {
        match self {
            Origin::Local(name) => ("local", name),
            Origin::Upvalue(name) => ("upvalue", name),
            Origin::Constant(name) => ("constant", name),
            Origin::Global(name) => ("global", name),
            Origin::Field(name) => ("field", name),
            Origin::Method(name) => ("method", name),
        }
    }

    pub fn render(self) -> (out: Vec<u8>)
        ensures
            out@ == rendered(self),
    {
        let (kind, name) = self.parts();
        let mut out = kind.as_bytes_vec();
        let open = " '".as_bytes_vec();
        out.extend_from_slice(open.as_slice());
        out.extend_from_slice(name.as_slice());
        out.push(0x27);
        out
    }

    pub fn name(self) -> (name: Vec<u8>)
        ensures
            name@ == origin_name(self),
    {
        self.parts().1
    }
}

/// The clause a message adds for a value it could name: ` (local 'x')`, or nothing.
pub fn clause(found: Option<Vec<u8>>) -> (out: Vec<u8>)
    ensures
        out@ == clause_of(
            match found {
                Some(name) => Some(name@),
                None => None,
            },
        ),
{
    match found {
        Some(name) => {
            let mut out = " (".as_bytes_vec();
            out.extend_from_slice(name.as_slice());
            let close = ")".as_bytes_vec();
            out.extend_from_slice(close.as_slice());
            out
        },
        None => Vec::new(),
    }
}

} // verus!
