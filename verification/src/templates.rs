//! Template bookkeeping: filenames and conditions resolved through
//! parameter filling, and the template list queried by kind.

use crate::error::Error;
use crate::text::str_eq;
use crate::tools::{fill_parameters, fill_spec, split_on, split_str};
use crate::value::Value;
use vstd::prelude::*;
use vstd::string::StrSliceExecFns;

verus! {

/// The discovered templates, in discovery order.
pub struct Templates {
    pub list: Vec<Template>,
}

/// One discovered template.
pub enum Template {
    Models(ModelsTemplate),
    Endpoints(EndpointsTemplate),
    Static(StaticTemplate),
}

/// A template rendered once per endpoint group.
pub struct EndpointsTemplate {
    pub relative: String,
    pub filename: Filename,
    pub content_type: String,
    pub condition: Option<Condition>,
}

/// A template rendered once per model set.
pub struct ModelsTemplate {
    pub relative: String,
    pub filename: Filename,
    pub condition: Option<Condition>,
}

/// A file copied as it is.
pub struct StaticTemplate {
    pub relative: String,
    pub path: String,
}

/// The two renderable template kinds.
#[derive(PartialEq, Eq, Structural)]
pub enum TemplateType {
    Models,
    Endpoints,
}

/// A target filename with `%...%` placeholders.
pub struct Filename {
    filename: String,
}

impl Filename {
    /// Wraps a filename pattern.
    pub fn from(filename: String) -> (r: Self)
        ensures
            r.pattern() == filename@,
    {
        Self { filename }
    }

    /// The placeholder pattern this filename holds.
    pub closed spec fn pattern(&self) -> Seq<char> {
        self.filename@
    }

    /// Fills the filename's placeholders from the given data.
    pub fn resolve(&self, container: &Value) -> (r: Result<String, Error>)
        ensures
            match (r, fill_spec(self.pattern(), container@)) {
                (Ok(s), Ok(t)) => s@ == t,
                (Err(e), Err(p)) => e matches Error::CannotFillParameters(ps) && ps@ == p,
                _ => false,
            },
    {
        fill_parameters(self.filename.as_str(), container)
    }
}

/// What a condition decides on given data: the filled text split at
/// one colon must have equal halves; any other piece count passes,
/// and a filling failure rejects.
pub open spec fn check_spec(kv: Seq<char>, data: crate::value::Doc) -> bool {
    match fill_spec(kv, data) {
        Err(_) => false,
        Ok(s) => {
            let parts = split_on(s, ':');
            if parts.len() == 2 {
                parts[0] == parts[1]
            } else {
                true
            }
        },
    }
}

/// A `left:right` guard with `%...%` placeholders.
pub struct Condition {
    pub kv: String,
}

impl Condition {
    /// Wraps a guard expression.
    pub fn from(kv: &str) -> (r: Result<Self, Error>)
        ensures
            r matches Ok(c) && c.kv@ == kv@,
    {
        Ok(Self { kv: String::from_str(kv) })
    }

    /// Decides the guard on the given data.
    pub fn check(&self, container: &Value) -> (r: bool)
        ensures
            r == check_spec(self.kv@, container@),
    {
        match fill_parameters(self.kv.as_str(), container) {
            Err(_) => false,
            Ok(s) => {
                let parts = split_str(s.as_str(), ':');
                if parts.len() == 2 {
                    str_eq(parts[0].as_str(), parts[1].as_str())
                } else {
                    true
                }
            },
        }
    }
}

/// The renderable kind of a template, if it has one.
pub open spec fn template_type_of(t: Template) -> Option<TemplateType> {
    match t {
        Template::Models(_) => Some(TemplateType::Models),
        Template::Endpoints(_) => Some(TemplateType::Endpoints),
        Template::Static(_) => None,
    }
}

impl Templates {
    /// Whether any template in the list has one of the given
    /// renderable kinds.
    pub fn includes(&self, types: &[TemplateType]) -> (r: bool)
        ensures
            r == exists|i: int, j: int|
                0 <= i < self.list@.len() && 0 <= j < types@.len() && template_type_of(
                    #[trigger] self.list@[i],
                ) == Some(#[trigger] types@[j]),
    {
        let mut i: usize = 0;
        while i < self.list.len()
            invariant
                i <= self.list@.len(),
                forall|a: int, j: int|
                    0 <= a < i && 0 <= j < types@.len() ==> template_type_of(
                        #[trigger] self.list@[a],
                    ) != Some(#[trigger] types@[j]),
            decreases self.list@.len() - i,
        {
            let kind: Option<TemplateType> = match &self.list[i] {
                Template::Models(_) => Some(TemplateType::Models),
                Template::Endpoints(_) => Some(TemplateType::Endpoints),
                Template::Static(_) => None,
            };
            if let Some(k) = kind {
                let mut j: usize = 0;
                while j < types.len()
                    invariant
                        i < self.list@.len(),
                        j <= types@.len(),
                        Some(k) == template_type_of(self.list@[i as int]),
                        forall|t: int|
                            0 <= t < j ==> template_type_of(#[trigger] self.list@[i as int])
                                != Some(#[trigger] types@[t]),
                    decreases types@.len() - j,
                {
                    if k == types[j] {
                        return true;
                    }
                    j += 1;
                }
            }
            i += 1;
        }
        false
    }
}

} // verus!
