//! What holds of compression as a whole.

use crate::compress_model::{bytes_with_dict, frame_bytes};
use crate::cparams::{spec_cparams, CParamMode};
use crate::dictionary::DictView;
use vstd::prelude::*;

verus! {

/// Level 0 stands for level 3, and levels above 22 for 22: the parameters are
/// the same, and so are the frames.
pub proof fn law_levels(level: int, src: Seq<u8>, dict_size: nat, mode: CParamMode)
    ensures
        spec_cparams(0, src.len(), dict_size, mode) == spec_cparams(3, src.len(), dict_size, mode),
        level > 22 ==> spec_cparams(level, src.len(), dict_size, mode) == spec_cparams(
            22,
            src.len(),
            dict_size,
            mode,
        ),
        frame_bytes(src, spec_cparams(0, src.len(), dict_size, mode)) == frame_bytes(
            src,
            spec_cparams(3, src.len(), dict_size, mode),
        ),
        level > 22 ==> frame_bytes(src, spec_cparams(level, src.len(), dict_size, mode)) == frame_bytes(
            src,
            spec_cparams(22, src.len(), dict_size, mode),
        ),
{
}

/// With an empty dictionary, a frame is the one without a dictionary.
pub proof fn law_empty_dictionary(src: Seq<u8>, dict: Seq<u8>, d: DictView, level: int)
    requires
        dict.len() == 0,
    ensures
        bytes_with_dict(
            src,
            dict,
            d,
            spec_cparams(level, src.len(), dict.len(), CParamMode::NoAttachDict),
        ) == frame_bytes(src, spec_cparams(level, src.len(), 0, CParamMode::NoAttachDict)),
{
    reveal(bytes_with_dict);
}

} // verus!
