//! The normalized verdict every oracle and property yields.

use std::path::PathBuf;
use vstd::prelude::*;

use crate::history::op::chars_eq;
use crate::text::chars_of;

verus! {

/// A path to a rendered artifact.
#[verifier::external_type_specification]
#[verifier::external_body]
pub struct ExPathBuf(PathBuf);

/// `PathBuf::clone`: a copy of the path. Nothing is claimed of the copy, which
/// the library only carries.
pub assume_specification[ <PathBuf as Clone>::clone ](p: &PathBuf) -> PathBuf;

/// A named anomaly, optionally with a free-text detail. The kind is an open
/// string (Elle's `G-single`, or a white-box message like
/// `"two leaders in term 4"`).
#[derive(Clone, Debug, PartialEq, Eq)]
pub struct Anomaly {
    /// The anomaly kind/name.
    pub kind: String,
    /// Optional human-readable detail.
    pub detail: Option<String>,
}

impl Anomaly {
    /// An anomaly with just a kind and no detail.
    pub fn new(kind: String) -> (a: Anomaly)
        ensures
            a.kind == kind,
            a.detail is None,
    {
        Anomaly { kind, detail: None }
    }

    /// An anomaly with a kind and a human-readable detail.
    pub fn with_detail(kind: String, detail: String) -> (a: Anomaly)
        ensures
            a.kind == kind,
            a.detail == Some(detail),
    {
        Anomaly { kind, detail: Some(detail) }
    }
}

/// Evidence that explains a failing verdict.
#[derive(Clone, Debug, PartialEq, Eq)]
pub enum Witness {
    /// A free-text explanation (e.g. a rendered failing trace).
    Text(String),
    /// A path to a rendered artifact (e.g. a cycle witness).
    Artifact(PathBuf),
}

/// The normalized verdict.
#[derive(Clone, Debug, PartialEq)]
pub struct Verdict {
    /// Whether the observed behavior is valid.
    pub valid: bool,
    /// Anomalies found.
    pub anomalies: Vec<Anomaly>,
    /// A minimal failing sub-history or shrunk scenario, if any.
    pub witness: Option<Witness>,
}

impl Verdict {
    /// A clean pass.
    pub fn valid() -> (v: Verdict)
        ensures
            v.valid,
            v.anomalies@.len() == 0,
            v.witness is None,
    {
        Verdict { valid: true, anomalies: Vec::new(), witness: None }
    }

    /// A failure carrying the named anomalies.
    pub fn invalid(anomalies: Vec<Anomaly>) -> (v: Verdict)
        ensures
            !v.valid,
            v.anomalies@ == anomalies@,
            v.witness is None,
    {
        Verdict { valid: false, anomalies, witness: None }
    }

    /// Attach a witness.
    pub fn with_witness(self, witness: Witness) -> (v: Verdict)
        ensures
            v.valid == self.valid,
            v.anomalies@ == self.anomalies@,
            v.witness == Some(witness),
    {
        let mut v = self;
        v.witness = Some(witness);
        v
    }
}

/// A verdict tagged with the name of the property or oracle that produced it.
#[derive(Clone, Debug, PartialEq)]
pub struct NamedVerdict {
    /// The property or oracle name.
    pub name: String,
    /// Its verdict.
    pub verdict: Verdict,
}

impl NamedVerdict {
    /// Pair a property/oracle name with its verdict.
    pub fn new(name: String, verdict: Verdict) -> (nv: NamedVerdict)
        ensures
            nv.name == name,
            nv.verdict == verdict,
    {
        NamedVerdict { name, verdict }
    }
}

/// A passing run's report.
#[derive(Clone, Debug)]
pub struct Report {
    /// Per-property and per-oracle verdicts, each tagged with its source name.
    pub verdicts: Vec<NamedVerdict>,
    /// How many seeds were executed.
    pub seeds_run: usize,
}

impl Default for Report {
    fn default() -> (r: Report)
        ensures
            r.verdicts@.len() == 0,
            r.seeds_run == 0,
    {
        Report { verdicts: Vec::new(), seeds_run: 0 }
    }
}

/// The first failing verdict of a seed: the earliest invalid one among its
/// property verdicts, then its oracle verdicts. The run stops there.
pub fn first_failure<'a>(props: &'a [NamedVerdict], oracles: &'a [NamedVerdict]) -> (r: Option<
    &'a NamedVerdict,
>)
    ensures
        match r {
            Some(nv) => exists|k: int|
                0 <= k < (props@ + oracles@).len() && (props@ + oracles@)[k] == *nv && !nv.verdict.valid
                    && forall|j: int| 0 <= j < k ==> (#[trigger] (props@ + oracles@)[j]).verdict.valid,
            None => forall|j: int|
                0 <= j < (props@ + oracles@).len() ==> (#[trigger] (props@ + oracles@)[j]).verdict.valid,
        },
{
    let ghost all = props@ + oracles@;
    let mut i: usize = 0;
    while i < props.len()
        invariant
            i <= props@.len(),
            all == props@ + oracles@,
            forall|j: int| 0 <= j < i ==> (#[trigger] all[j]).verdict.valid,
        decreases props.len() - i,
    {
        if !props[i].verdict.valid {
            assert(all[i as int] == props@[i as int]);
            return Some(&props[i]);
        }
        assert(all[i as int] == props@[i as int]);
        i = i + 1;
    }
    let mut k: usize = 0;
    while k < oracles.len()
        invariant
            k <= oracles@.len(),
            all == props@ + oracles@,
            forall|j: int| 0 <= j < props@.len() + k ==> (#[trigger] all[j]).verdict.valid,
        decreases oracles.len() - k,
    {
        if !oracles[k].verdict.valid {
            assert(all[props@.len() + k] == oracles@[k as int]);
            return Some(&oracles[k]);
        }
        assert(all[props@.len() + k] == oracles@[k as int]);
        k = k + 1;
    }
    None
}

/// Whether the verdict named `name` is among the failures.
pub fn fails_named(verdicts: &[NamedVerdict], name: &str) -> (r: bool)
    ensures
        r == exists|k: int|
            0 <= k < verdicts@.len() && (#[trigger] verdicts@[k]).name@ == name@
                && !verdicts@[k].verdict.valid,
{
    let mut i: usize = 0;
    while i < verdicts.len()
        invariant
            i <= verdicts@.len(),
            forall|k: int|
                0 <= k < i ==> !((#[trigger] verdicts@[k]).name@ == name@ && !verdicts@[k].verdict.valid),
        decreases verdicts.len() - i,
    {
        let v = chars_of(verdicts[i].name.as_str());
        proof {
            assert(v@.subrange(0, v@.len() as int) =~= v@);
        }
        if chars_eq(&v, 0, v.len(), name) && !verdicts[i].verdict.valid {
            return true;
        }
        i = i + 1;
    }
    false
}

} // verus!
