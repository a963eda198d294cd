use vstd::prelude::*;

use lewton::VorbisError;

verus! {

/// An error of the Vorbis decoder.
#[verifier::external_type_specification]
#[verifier::external_body]
pub struct ExVorbisError(VorbisError);

/// Appends the samples of one packet.
pub fn append_packet(samples: &mut Vec<i16>, packet: &Vec<i16>)
    ensures
        final(samples)@ == old(samples)@ + packet@,
{
    let ghost before = samples@;
    let mut i: usize = 0;
    while i < packet.len()
        invariant
            i <= packet@.len(),
            samples@ == before + packet@.take(i as int),
        decreases packet@.len() - i,
    {
        samples.push(packet[i]);
        assert(packet@.take(i + 1) =~= packet@.take(i as int).push(packet@[i as int]));
        i = i + 1;
    }
    assert(packet@.take(packet@.len() as int) =~= packet@);
}

/// Handles the result of one read of the music decoder: a packet's
/// samples are appended and reading goes on (`true`); the end of the
/// stream or an error stops it (`false`) and leaves the samples as they
/// are. Reading until this gives `false` joins the packets, in order, up to
/// the first read that gives none.
pub fn take_packet(samples: &mut Vec<i16>, read: Result<Option<Vec<i16>>, VorbisError>) -> (more: bool)
    ensures
        more <==> (read matches Ok(Some(_))),
        read matches Ok(Some(v)) ==> final(samples)@ == old(samples)@ + v@,
        !more ==> final(samples)@ == old(samples)@,
{
    match read {
        Ok(Some(packet)) => {
            append_packet(samples, &packet);
            true
        },
        _ => false,
    }
}

} // verus!
