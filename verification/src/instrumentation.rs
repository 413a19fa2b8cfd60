//! The externally supplied mapping from sample files to the instruments
//! that should trigger them.

use vstd::prelude::*;
use vstd::slice::slice_to_vec;
use vstd::string::StringSliceAdditionalSpecFns;

use crate::pattern::Instrument;

verus! {

/// A sample audio file's identifier: its name's bytes. Locating and
/// decoding the actual file on disk is the caller's concern.
#[derive(Debug)]
pub struct SampleFile(Vec<u8>);

impl View for SampleFile {
    type V = Seq<u8>;

    closed spec fn view(&self) -> Seq<u8> {
        self.0@
    }
}

impl SampleFile {
    /// Builds a sample-file identifier from a string's bytes.
    pub fn from(s: &str) -> (r: SampleFile)
        ensures
            r@ == s.spec_bytes(),
    {
        SampleFile(slice_to_vec(s.as_bytes()))
    }

    /// The identifier's bytes.
    pub fn name(&self) -> (r: &Vec<u8>)
        ensures
            r@ == self@,
    {
        &self.0
    }
}

impl Clone for SampleFile {
    /// The copy carries the same identifier.
    fn clone(&self) -> (r: Self)
        ensures
            r@ == self@,
    {
        SampleFile(slice_to_vec(self.0.as_slice()))
    }
}

/// The view of one instrumentation entry: a sample file's name and the
/// names of the instruments that trigger it.
pub open spec fn instrumentation_entry_view(e: (SampleFile, Vec<Instrument>)) -> (
    Seq<u8>,
    Seq<Seq<u8>>,
) {
    (e.0@, e.1@.map_values(|i: Instrument| i@))
}

/// The caller-supplied mapping from sample files to the instruments that
/// should play them; one sample file may be triggered by several
/// instruments. Its view lists the entries in insertion order.
pub struct Instrumentation(Vec<(SampleFile, Vec<Instrument>)>);

impl View for Instrumentation {
    type V = Seq<(Seq<u8>, Seq<Seq<u8>>)>;

    closed spec fn view(&self) -> Seq<(Seq<u8>, Seq<Seq<u8>>)> {
        self.0@.map_values(|e: (SampleFile, Vec<Instrument>)| instrumentation_entry_view(e))
    }
}

impl Instrumentation {
    /// An empty mapping.
    pub fn new() -> (r: Instrumentation)
        ensures
            r@ == Seq::<(Seq<u8>, Seq<Seq<u8>>)>::empty(),
    {
        let r = Instrumentation(Vec::new());
        proof {
            assert(r@ =~= Seq::<(Seq<u8>, Seq<Seq<u8>>)>::empty());
        }
        r
    }

    /// Adds one sample file with the instruments that should trigger it.
    pub fn push(&mut self, file: SampleFile, instruments: Vec<Instrument>)
        ensures
            final(self)@ == old(self)@.push(
                (file@, instruments@.map_values(|i: Instrument| i@)),
            ),
    {
        let ghost target = self@.push((file@, instruments@.map_values(|i: Instrument| i@)));
        self.0.push((file, instruments));
        proof {
            assert(self@ =~= target);
        }
    }

    /// The number of sample files in the mapping.
    pub fn len(&self) -> (r: usize)
        ensures
            r == self@.len(),
    {
        self.0.len()
    }

    /// The entry at position `k`: a sample file and its instruments.
    pub fn get(&self, k: usize) -> (r: &(SampleFile, Vec<Instrument>))
        requires
            k < self@.len(),
        ensures
            r.0@ == self@[k as int].0,
            r.1@.map_values(|i: Instrument| i@) == self@[k as int].1,
    {
        &self.0[k]
    }
}

} // verus!
