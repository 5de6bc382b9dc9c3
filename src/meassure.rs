//! Named timings collected around a value.
use vstd::prelude::*;

verus! {

/// A value, once set, together with the timings taken while it was made.
pub struct Measured<T> {
    pub data: Option<T>,
    /// Each timing: its name and its length in nanoseconds.
    pub measurements: Vec<(String, u128)>,
}

impl<T> Measured<T> {
    pub fn new() -> (r: Measured<T>)
        ensures
            r.data is None,
            r.measurements@.len() == 0,
    {
        Measured { data: None, measurements: Vec::new() }
    }

    pub fn set(&mut self, data: T)
        ensures
            final(self).data == Some(data),
            final(self).measurements@ == old(self).measurements@,
    {
        self.data = Some(data);
    }

    /// Adds one timing at the end.
    pub fn record(&mut self, name: String, nanos: u128)
        ensures
            final(self).data == old(self).data,
            final(self).measurements@ == old(self).measurements@.push((name, nanos)),
    {
        self.measurements.push((name, nanos));
    }

    /// Takes the value out; it must have been set.
    pub fn data(&mut self) -> (r: T)
        requires
            old(self).data is Some,
        ensures
            r == old(self).data->0,
            final(self).data is None,
            final(self).measurements@ == old(self).measurements@,
    {
        let d = self.data.take();
        d.unwrap()
    }

    /// This one's timings followed by those of `other`, with the value of `other`.
    pub fn append<D>(self, other: Measured<D>) -> (r: Measured<D>)
        ensures
            r.data == other.data,
            r.measurements@ == self.measurements@ + other.measurements@,
    {
        let mut measurements = self.measurements;
        let mut rest = other.measurements;
        measurements.append(&mut rest);
        Measured { data: other.data, measurements }
    }
}

} // verus!
