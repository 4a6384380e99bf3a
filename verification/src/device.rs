use vstd::prelude::*;

verus! {

/// A registered device: a unique numeric key together with an opaque
/// address payload.  The indexes order devices by `numerical_id` only.
#[derive(Debug, PartialEq)]
pub struct IoTDevice {
    pub numerical_id: u64,
    pub address: String,
}

impl View for IoTDevice {
    type V = (u64, Seq<char>);

    open spec fn view(&self) -> (u64, Seq<char>) {
        (self.numerical_id, self.address@)
    }
}

impl Clone for IoTDevice {
    fn clone(&self) -> (r: Self)
        ensures
            r == *self,
    {
        IoTDevice { numerical_id: self.numerical_id, address: self.address.clone() }
    }
}

impl IoTDevice {
    pub fn new(numerical_id: u64, address: String) -> (r: Self)
        ensures
            r.numerical_id == numerical_id,
            r.address == address,
    {
        IoTDevice { numerical_id, address }
    }
}

} // verus!
