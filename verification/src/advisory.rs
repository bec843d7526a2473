//! RustSec advisories as plain values, with the labels the reports use.

use vstd::prelude::*;

verus! {

/// An informational advisory's kind.
pub enum Informational {
    Notice,
    Unmaintained,
    Unsound,
    Other(String),
}

/// CVSS severity bands.
#[derive(Debug, Clone, Copy, PartialEq, Eq, Structural)]
pub enum Severity {
    /// CVSS score 0.0.
    Zero,
    Low,
    Medium,
    High,
    Critical,
}

/// RustSec's advisory categories.
#[derive(Debug, Clone, Copy, PartialEq, Eq, Structural)]
pub enum Category {
    CodeExecution,
    CryptoFailure,
    DenialOfService,
    FileDisclosure,
    FormatInjection,
    Malicious,
    MemoryCorruption,
    MemoryExposure,
    PrivilegeEscalation,
    ThreadSafety,
    Other,
}

/// One advisory that affects a resolved crate version.
pub struct Advisory {
    /// The advisory id, such as `RUSTSEC-2026-0001`.
    pub id: String,
    /// Set for informational advisories (unmaintained, unsound, notice).
    pub informational: Option<Informational>,
    /// The CVSS severity, when the advisory carries a CVSS vector.
    pub severity: Option<Severity>,
    pub categories: Vec<Category>,
}

/// The text of an informational kind, as RustSec prints it.
pub open spec fn informational_text(info: Informational) -> Seq<char> {
    match info {
        Informational::Notice => "notice"@,
        Informational::Unmaintained => "unmaintained"@,
        Informational::Unsound => "unsound"@,
        Informational::Other(s) => s@,
    }
}

/// How a report names an advisory: its informational kind, else its id.
pub open spec fn advisory_label_text(a: Advisory) -> Seq<char> {
    match a.informational {
        Some(info) => informational_text(info),
        None => a.id@,
    }
}

/// The reason line of an advisory.
pub open spec fn advisory_line_text(a: Advisory) -> Seq<char> {
    match a.informational {
        Some(info) => "flagged: "@ + informational_text(info),
        None => "advisory: "@ + a.id@,
    }
}

fn informational_str(info: &Informational) -> (r: &str)
    ensures
        r@ == informational_text(*info),
{
    match info {
        Informational::Notice => "notice",
        Informational::Unmaintained => "unmaintained",
        Informational::Unsound => "unsound",
        Informational::Other(s) => s.as_str(),
    }
}

impl Advisory {
    /// The label recorded in JSON output and compared by a baseline.
    pub fn label(&self) -> (r: String)
        ensures
            r@ == advisory_label_text(*self),
    {
        match &self.informational {
            Some(info) => informational_str(info).to_owned(),
            None => self.id.clone(),
        }
    }

    /// The human reason line: `flagged: <kind>` or `advisory: <id>`.
    pub fn line(&self) -> (r: String)
        ensures
            r@ == advisory_line_text(*self),
    {
        match &self.informational {
            Some(info) => {
                let mut s = "flagged: ".to_owned();
                s.append(informational_str(info));
                s
            },
            None => {
                let mut s = "advisory: ".to_owned();
                s.append(self.id.as_str());
                s
            },
        }
    }
}


impl Informational {
    /// A copy of this kind.
    pub fn duplicate(&self) -> (r: Informational)
        ensures
            r == *self,
    {
        match self {
            Informational::Notice => Informational::Notice,
            Informational::Unmaintained => Informational::Unmaintained,
            Informational::Unsound => Informational::Unsound,
            Informational::Other(s) => Informational::Other(s.clone()),
        }
    }
}

/// Two advisories hold the same id, kind, severity and categories.
pub open spec fn same_advisory(a: Advisory, b: Advisory) -> bool {
    &&& a.id == b.id
    &&& a.informational == b.informational
    &&& a.severity == b.severity
    &&& a.categories@ == b.categories@
}

impl Advisory {
    /// A copy of this advisory.
    pub fn duplicate(&self) -> (r: Advisory)
        ensures
            same_advisory(r, *self),
    {
        let mut categories: Vec<Category> = Vec::new();
        let mut i: usize = 0;
        while i < self.categories.len()
            invariant
                i <= self.categories@.len(),
                categories@ == self.categories@.take(i as int),
            decreases self.categories@.len() - i,
        {
            categories.push(self.categories[i]);
            proof {
                assert(self.categories@.take(i + 1) =~= self.categories@.take(i as int).push(self.categories@[i as int]));
            }
            i = i + 1;
        }
        assert(self.categories@.take(self.categories@.len() as int) =~= self.categories@);
        let informational = match &self.informational {
            Some(info) => Some(info.duplicate()),
            None => None,
        };
        Advisory { id: self.id.clone(), informational, severity: self.severity, categories }
    }
}

} // verus!
