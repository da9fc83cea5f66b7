use vstd::prelude::*;

verus! {

/// The kind of value a node parameter holds.
#[derive(Debug, Copy, Clone, PartialEq, Eq, Structural, Hash)]
pub enum ParamKind {
    String,
    Float,
    Int,
    Bool,
}

/// A parameter a node declares: its kind and its label.
#[derive(Debug, Copy, Clone)]
pub struct Parameter {
    pub kind: ParamKind,
    pub text: &'static str,
}

/// Interpolation used when a sample is played at another rate.
#[derive(Debug, Copy, Clone, PartialEq, Eq, Structural)]
pub enum ResampleMethod {
    Nearest,
    Linear,
    Hermite,
    Sinc8,
    Sinc16,
    Sinc32,
}

impl ParamKind {
    /// The one-letter tag a project file writes before a value of this kind.
    pub fn tag(&self) -> (r: u8)
        ensures
            r == self.tag_spec(),
    {
        match self {
            ParamKind::String => 0x73u8,
            ParamKind::Float => 0x66u8,
            ParamKind::Int => 0x69u8,
            ParamKind::Bool => 0x62u8,
        }
    }

    /// The kind a project-file tag stands for.
    pub fn from_tag(tag: u8) -> (r: Option<ParamKind>)
        ensures
            r matches Some(k) ==> k.tag_spec() == tag,
            r.is_none() <==> !(tag == 0x73u8 || tag == 0x66u8 || tag == 0x69u8 || tag == 0x62u8),
    {
        if tag == 0x73u8 {
            Some(ParamKind::String)
        } else if tag == 0x66u8 {
            Some(ParamKind::Float)
        } else if tag == 0x69u8 {
            Some(ParamKind::Int)
        } else if tag == 0x62u8 {
            Some(ParamKind::Bool)
        } else {
            None
        }
    }

    pub open spec fn tag_spec(&self) -> u8 {
        match *self {
            ParamKind::String => 0x73u8,
            ParamKind::Float => 0x66u8,
            ParamKind::Int => 0x69u8,
            ParamKind::Bool => 0x62u8,
        }
    }
}

} // verus!
