use vstd::prelude::*;

verus! {

/// The format identifiers this library is meant to be used with, in
/// their advertised order. The list is advisory metadata: nothing
/// checks an input against it, and actual support is decided by the
/// prober and decoders at run time.
pub fn get_supported_formats() -> (r: Vec<String>)
    ensures
        r@.len() == 5,
        r@[0]@ == "mp3"@,
        r@[1]@ == "aac"@,
        r@[2]@ == "ogg"@,
        r@[3]@ == "flac"@,
        r@[4]@ == "wav"@,
{
    let mut formats: Vec<String> = Vec::new();
    formats.push(String::from_str("mp3"));
    formats.push(String::from_str("aac"));
    formats.push(String::from_str("ogg"));
    formats.push(String::from_str("flac"));
    formats.push(String::from_str("wav"));
    formats
}

} // verus!
