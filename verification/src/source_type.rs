//! Source type classifier: which corpus a file belongs to, decided by the
//! leading component of its repository-relative path.

use vstd::prelude::*;
use crate::text::{has_prefix, same_chars, starts_with_chars, to_chars};

verus! {

#[derive(Debug, Clone, Copy, PartialEq, Eq, Structural)]
pub enum SourceType {
    Memory,
    Project,
    Vault,
    Contact,
}

/// The name under which a source type is stored and filtered.
pub open spec fn source_type_name(st: SourceType) -> Seq<char> {
    match st {
        SourceType::Memory => "memory"@,
        SourceType::Project => "project"@,
        SourceType::Vault => "vault"@,
        SourceType::Contact => "contact"@,
    }
}

/// The source type whose name is `s`, if any.
pub open spec fn source_type_named(s: Seq<char>) -> Option<SourceType> {
    if s == "memory"@ {
        Some(SourceType::Memory)
    } else if s == "project"@ {
        Some(SourceType::Project)
    } else if s == "vault"@ {
        Some(SourceType::Vault)
    } else if s == "contact"@ {
        Some(SourceType::Contact)
    } else {
        None
    }
}

/// The source type of a repository-relative path: by its first component.
pub open spec fn source_type_of_path(p: Seq<char>) -> SourceType {
    if has_prefix(p, "vault/"@) {
        SourceType::Vault
    } else if has_prefix(p, "projects/"@) {
        SourceType::Project
    } else if has_prefix(p, "contacts/"@) {
        SourceType::Contact
    } else {
        SourceType::Memory
    }
}

impl SourceType {
    pub fn as_str(self) -> (r: &'static str)
        ensures
            r@ == source_type_name(self),
    {
        match self {
            SourceType::Memory => "memory",
            SourceType::Project => "project",
            SourceType::Vault => "vault",
            SourceType::Contact => "contact",
        }
    }

    pub fn from_str(s: &str) -> (r: Option<SourceType>)
        ensures
            r == source_type_named(s@),
    {
        let v = to_chars(s);
        if same_chars(&v, &to_chars("memory")) {
            Some(SourceType::Memory)
        } else if same_chars(&v, &to_chars("project")) {
            Some(SourceType::Project)
        } else if same_chars(&v, &to_chars("vault")) {
            Some(SourceType::Vault)
        } else if same_chars(&v, &to_chars("contact")) {
            Some(SourceType::Contact)
        } else {
            None
        }
    }
}

pub fn infer(rel_path: &str) -> (r: SourceType)
    ensures
        r == source_type_of_path(rel_path@),
{
    let p = to_chars(rel_path);
    if starts_with_chars(&p, &to_chars("vault/")) {
        SourceType::Vault
    } else if starts_with_chars(&p, &to_chars("projects/")) {
        SourceType::Project
    } else if starts_with_chars(&p, &to_chars("contacts/")) {
        SourceType::Contact
    } else {
        SourceType::Memory
    }
}

/// Every source type is recovered from its name: `from_str(as_str(st)) == Some(st)`.
pub proof fn law_name_roundtrip(st: SourceType)
    ensures
        source_type_named(source_type_name(st)) == Some(st),
{
    reveal_strlit("memory");
    reveal_strlit("project");
    reveal_strlit("vault");
    reveal_strlit("contact");
    match st {
        SourceType::Memory => {},
        SourceType::Project => {
            assert("project"@[0] != "memory"@[0]);
        },
        SourceType::Vault => {
            assert("vault"@.len() != "memory"@.len());
            assert("vault"@.len() != "project"@.len());
        },
        SourceType::Contact => {
            assert("contact"@[0] != "memory"@[0]);
            assert("contact"@[1] != "project"@[1]);
            assert("contact"@.len() != "vault"@.len());
        },
    }
}

/// A name is accepted only if it is exactly the name of the type it yields.
pub proof fn law_named_is_name(s: Seq<char>)
    ensures
        source_type_named(s) matches Some(st) ==> source_type_name(st) == s,
{
}

} // verus!
