//! The waveform model that a grammar-level parser fills from the words: the
//! metadata of a dump, its tree of scopes, and its signals. Only the empty
//! model is built here.

use num::BigInt;
use std::collections::BTreeMap;
use vstd::prelude::*;

verus! {

/// `num::BigInt`, a signed integer of any size. Nothing is claimed of what a
/// value holds.
#[verifier::external_type_specification]
#[verifier::external_body]
pub struct ExBigInt(BigInt);

/// A moment in UTC: whole seconds since the start of 1970, and the
/// nanoseconds within that second.
#[derive(Debug, Clone, Copy, PartialEq, Eq, Structural)]
pub struct UtcDate {
    pub seconds: i64,
    pub nanos: u32,
}

/// The version string of the tool that wrote the dump.
#[derive(Debug)]
pub struct Version(pub String);

/// The unit of the dump's time scale.
#[allow(non_camel_case_types)]
#[derive(Debug, Clone, Copy, PartialEq, Eq, Structural)]
pub enum Timescale {
    ps,
    ns,
    us,
    ms,
    s,
    unit,
}

/// What the header of a dump says of it.
#[derive(Debug)]
pub struct Metadata {
    pub date: Option<UtcDate>,
    pub version: Option<Version>,
    pub timescale: (Option<u32>, Timescale),
}

/// The index of a scope in `VCD::all_scopes`.
#[allow(non_camel_case_types)]
#[derive(Debug)]
pub struct Scope_Idx(pub usize);

/// The index of a signal in `VCD::all_signals`.
#[allow(non_camel_case_types)]
#[derive(Debug)]
pub struct Signal_Idx(pub usize);

/// A signal with a timeline of its own, or another name for such a signal.
#[derive(Debug)]
pub enum SignalGeneric {
    Signal { name: String, timeline: BTreeMap<BigInt, BigInt>, scope_parent: Scope_Idx },
    SignalAlias { name: String, signal_alias: Signal_Idx },
}

/// A named group of signals and scopes.
#[derive(Debug)]
pub struct Scope {
    pub name: String,
    pub child_signals: Vec<Signal_Idx>,
    pub child_scopes: Vec<Scope_Idx>,
}

/// A whole dump. The root scope stands at index 0 of `all_scopes`.
#[derive(Debug)]
pub struct VCD {
    pub metadata: Metadata,
    pub all_signals: Vec<SignalGeneric>,
    pub all_scopes: Vec<Scope>,
}

impl VCD {
    /// The empty model: no date, no version, no time scale, no signal and no
    /// scope.
    pub fn new() -> (v: VCD)
        ensures
            v.metadata.date is None,
            v.metadata.version is None,
            v.metadata.timescale == (None::<u32>, Timescale::unit),
            v.all_signals@.len() == 0,
            v.all_scopes@.len() == 0,
    {
        let metadata = Metadata { date: None, version: None, timescale: (None, Timescale::unit) };
        VCD { metadata, all_signals: Vec::<SignalGeneric>::new(), all_scopes: Vec::<Scope>::new() }
    }
}

} // verus!
