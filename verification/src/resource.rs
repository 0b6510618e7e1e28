//! string resources managed by the rendering platform

use vstd::prelude::*;

verus! {

#[derive(Clone, Copy, Debug, PartialEq, Eq, Hash, Structural)]
pub struct StringId(pub u64);

/// string bytes, owned or borrowed for the program's lifetime
#[derive(Debug, PartialEq, Eq)]
pub enum StringData {
    Owned(Box<str>),
    Static(&'static str),
}

/// the text a request draws: a registered string or a static one
#[derive(Clone, Copy, Debug)]
pub enum TextSource {
    Resource(StringId),
    Static(&'static str),
}

} // verus!
