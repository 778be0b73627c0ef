use vstd::prelude::*;

verus! {

/// The samples at another sample rate, where the library can give them:
/// it changes no rate, and hands the samples back as they are.
pub fn resample(input: &[i16], source_rate: u32, target_rate: u32, channels: u32) -> (output: Vec<
    i16,
>)
    ensures
        output@ == input@,
{
    vstd::slice::slice_to_vec(input)
}

} // verus!
