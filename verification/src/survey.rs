//! Which files make up one recording.
use vstd::prelude::*;

use crate::error::ExtractError;
use crate::format::WavFormat;
use crate::parse::{DataRegion, InputPart, PartView};

verus! {

/// The byte count of the samples in `regions`.
pub open spec fn data_bytes(regions: Seq<DataRegion>) -> int
    decreases regions.len(),
{
    if regions.len() == 0 {
        0
    } else {
        data_bytes(regions.drop_last()) + regions.last().len
    }
}

/// Fewer regions hold no more bytes.
pub proof fn lemma_data_bytes_prefix(regions: Seq<DataRegion>, n: int)
    requires
        0 <= n <= regions.len(),
    ensures
        0 <= data_bytes(regions.take(n)) <= data_bytes(regions),
    decreases regions.len(),
{
    if n == regions.len() {
        assert(regions.take(n) =~= regions);
        if n > 0 {
            lemma_data_bytes_prefix(regions.drop_last(), 0);
            assert(regions.drop_last().take(0) =~= Seq::empty());
        }
    } else {
        lemma_data_bytes_prefix(regions.drop_last(), n);
        assert(regions.drop_last().take(n) =~= regions.take(n));
    }
}

/// Adds up the bytes of `regions`.
fn sum_lens(regions: &Vec<DataRegion>) -> (bytes: u64)
    requires
        data_bytes(regions@) <= u64::MAX,
    ensures
        bytes == data_bytes(regions@),
{
    let mut bytes: u64 = 0;
    for i in 0..regions.len()
        invariant
            bytes == data_bytes(regions@.take(i as int)),
            data_bytes(regions@) <= u64::MAX,
    {
        proof {
            lemma_data_bytes_prefix(regions@, i + 1);
            assert(regions@.take(i + 1).drop_last() =~= regions@.take(i as int));
        }
        bytes = bytes + regions[i].len;
    }
    assert(regions@.take(regions@.len() as int) =~= regions@);
    bytes
}

impl PartView {
    /// The count of whole frames in the part.
    pub open spec fn frames(self) -> int {
        data_bytes(self.data_regions) / (self.format.block_align as int)
    }

    /// Why the part cannot follow parts of format `expected` with `total_frames` frames, if it
    /// cannot.
    pub open spec fn fault(self, expected: Option<WavFormat>, total_frames: int) -> Option<
        ExtractError,
    > {
        if self.data_regions.len() == 0 {
            Some(ExtractError::NoData)
        } else if data_bytes(self.data_regions) % (self.format.block_align as int) != 0 {
            Some(ExtractError::UnalignedData)
        } else if total_frames + self.frames() > u64::MAX {
            Some(ExtractError::FrameCountOverflow)
        } else if expected is Some && expected != Some(self.format) {
            Some(ExtractError::FormatMismatch { expected: expected->0, found: self.format })
        } else {
            None
        }
    }
}

/// The parts as mathematical values.
pub open spec fn part_views(parts: Seq<InputPart>) -> Seq<PartView> {
    parts.map_values(|part: InputPart| part@)
}

/// The count of frames in all parts.
pub open spec fn frames_of(parts: Seq<PartView>) -> int
    decreases parts.len(),
{
    if parts.len() == 0 {
        0
    } else {
        frames_of(parts.drop_last()) + parts.last().frames()
    }
}

/// The format of the first part.
pub open spec fn format_of(parts: Seq<PartView>) -> Option<WavFormat> {
    if parts.len() == 0 {
        None
    } else {
        Some(parts[0].format)
    }
}

/// Whether the parts make up one recording: each has samples, in whole frames, and all share one
/// format, whose frames are not empty.
pub open spec fn one_recording(parts: Seq<PartView>) -> bool {
    forall|i: int|
        #![trigger parts[i]]
        0 <= i < parts.len() ==> {
            &&& parts[i].format == parts[0].format
            &&& parts[i].format.block_align != 0
            &&& parts[i].data_regions.len() > 0
            &&& data_bytes(parts[i].data_regions) % (parts[i].format.block_align as int) == 0
        }
}

/// What is to be extracted from a recording.
#[derive(Debug, Clone, Copy, PartialEq, Eq, Structural)]
pub struct Plan {
    pub format: WavFormat,
    pub total_frames: u64,
    pub frames_to_write: u64,
}

/// The parts of a recording, gathered one by one.
#[derive(Debug)]
pub struct Survey {
    pub parts: Vec<InputPart>,
    pub format: Option<WavFormat>,
    pub total_frames: u64,
}

impl Survey {
    /// The parts as mathematical values.
    pub open spec fn views(self) -> Seq<PartView> {
        part_views(self.parts@)
    }

    /// The parts make up one recording, and the survey knows its format and its frames.
    pub open spec fn well_formed(self) -> bool {
        &&& one_recording(self.views())
        &&& self.format == format_of(self.views())
        &&& self.total_frames == frames_of(self.views())
    }

    /// A survey of no parts.
    pub fn new() -> (survey: Survey)
        ensures
            survey.well_formed(),
            survey.views() == Seq::<PartView>::empty(),
    {
        let survey = Survey { parts: Vec::new(), format: None, total_frames: 0 };
        assert(survey.views() =~= Seq::empty());
        survey
    }

    /// Adds the next part of the recording. Where it does not belong to the recording, the survey
    /// is left as it was.
    pub fn add_part(&mut self, part: InputPart) -> (result: Result<(), ExtractError>)
        requires
            old(self).well_formed(),
            part@.data_regions.len() > 0 ==> part@.format.block_align != 0,
            data_bytes(part@.data_regions) <= u64::MAX,
        ensures
            final(self).well_formed(),
            match result {
                Ok(()) => part@.fault(old(self).format, old(self).total_frames as int) is None
                    && final(self).views() == old(self).views().push(part@),
                Err(error) => part@.fault(old(self).format, old(self).total_frames as int) == Some(
                    error,
                ) && *final(self) == *old(self),
            },
    {
        if part.data_regions.len() == 0 {
            return Err(ExtractError::NoData);
        }
        let bytes: u64 = sum_lens(&part.data_regions);
        let block_align: u64 = part.format.block_align as u64;
        if bytes % block_align != 0 {
            return Err(ExtractError::UnalignedData);
        }
        let total_frames: u64 = match self.total_frames.checked_add(bytes / block_align) {
            Some(total_frames) => total_frames,
            None => return Err(ExtractError::FrameCountOverflow),
        };
        let format: WavFormat = part.format;
        if let Some(expected) = self.format {
            if expected != format {
                return Err(ExtractError::FormatMismatch { expected, found: format });
            }
        } else {
            self.format = Some(format);
        }
        self.total_frames = total_frames;
        self.parts.push(part);
        proof {
            assert(self.views() =~= old(self).views().push(part@));
            assert(self.views().drop_last() =~= old(self).views());
        }
        Ok(())
    }

    /// What is to be extracted where at most `max_frames` frames are wanted.
    pub fn plan(&self, max_frames: Option<u64>) -> (result: Result<Plan, ExtractError>)
        requires
            self.well_formed(),
        ensures
            match result {
                Ok(plan) => self.views().len() > 0 && plan == planned(self.views(), max_frames),
                Err(error) => self.views().len() == 0 && error == ExtractError::NoWavFiles,
            },
    {
        let format: WavFormat = match self.format {
            Some(format) => format,
            None => return Err(ExtractError::NoWavFiles),
        };
        let frames_to_write: u64 = match max_frames {
            Some(max) => if max < self.total_frames {
                max
            } else {
                self.total_frames
            },
            None => self.total_frames,
        };
        Ok(Plan { format, total_frames: self.total_frames, frames_to_write })
    }
}

/// What is to be extracted from `parts` where at most `max_frames` frames are wanted.
pub open spec fn planned(parts: Seq<PartView>, max_frames: Option<u64>) -> Plan {
    let total = frames_of(parts) as u64;
    Plan {
        format: parts[0].format,
        total_frames: total,
        frames_to_write: match max_frames {
            Some(max) => if max < total {
                max
            } else {
                total
            },
            None => total,
        },
    }
}

/// The bytes of regions are those of one group of them and those of the rest together, and a
/// single region has as many as its length.
pub proof fn law_data_bytes_add_up(a: Seq<DataRegion>, b: Seq<DataRegion>)
    ensures
        data_bytes(a + b) == data_bytes(a) + data_bytes(b),
        a.len() == 0 ==> data_bytes(a) == 0,
        a.len() == 1 ==> data_bytes(a) == a[0].len,
    decreases b.len(),
{
    reveal_with_fuel(data_bytes, 2);
    if b.len() == 0 {
        assert(a + b =~= a);
    } else {
        assert((a + b).drop_last() =~= a + b.drop_last());
        law_data_bytes_add_up(a, b.drop_last());
    }
}

/// The frames of parts are those of one group of them and those of the rest together, and a single
/// part of `n` frames of its block align has `n`.
pub proof fn law_frames_add_up(a: Seq<PartView>, b: Seq<PartView>, n: int)
    ensures
        frames_of(a + b) == frames_of(a) + frames_of(b),
        a.len() == 0 ==> frames_of(a) == 0,
        a.len() == 1 && a[0].format.block_align > 0 && data_bytes(a[0].data_regions) == n
            * a[0].format.block_align ==> frames_of(a) == n,
    decreases b.len(),
{
    reveal_with_fuel(frames_of, 2);
    if a.len() == 1 && a[0].format.block_align > 0 && data_bytes(a[0].data_regions) == n
        * a[0].format.block_align {
        vstd::arithmetic::div_mod::lemma_fundamental_div_mod_converse(
            data_bytes(a[0].data_regions),
            a[0].format.block_align as int,
            n,
            0,
        );
    }
    if b.len() == 0 {
        assert(a + b =~= a);
    } else {
        assert((a + b).drop_last() =~= a + b.drop_last());
        law_frames_add_up(a, b.drop_last(), n);
    }
}

/// A part that holds `n` whole frames belongs to a recording exactly where it has a data region,
/// has the format of the recording, and the frames of both can be counted in 64 bits.
pub proof fn law_whole_part_is_accepted(
    part: PartView,
    expected: Option<WavFormat>,
    total_frames: int,
    n: int,
)
    requires
        part.format.block_align > 0,
        data_bytes(part.data_regions) == n * part.format.block_align,
    ensures
        part.fault(expected, total_frames) is None <==> {
            &&& part.data_regions.len() > 0
            &&& total_frames + n <= u64::MAX
            &&& expected is None || expected == Some(part.format)
        },
        part.data_regions.len() == 0 ==> part.fault(expected, total_frames) == Some(
            ExtractError::NoData,
        ),
        part.data_regions.len() > 0 && total_frames + n > u64::MAX ==> part.fault(
            expected,
            total_frames,
        ) == Some(ExtractError::FrameCountOverflow),
        part.data_regions.len() > 0 && total_frames + n <= u64::MAX && expected is Some && expected
            != Some(part.format) ==> part.fault(expected, total_frames) == Some(
            ExtractError::FormatMismatch { expected: expected->Some_0, found: part.format },
        ),
{
    vstd::arithmetic::div_mod::lemma_fundamental_div_mod_converse(
        data_bytes(part.data_regions),
        part.format.block_align as int,
        n,
        0,
    );
}

/// A part with samples is refused as unaligned exactly where they end within a frame.
pub proof fn law_broken_part_is_refused(
    part: PartView,
    expected: Option<WavFormat>,
    total_frames: int,
    n: int,
    rest: int,
)
    requires
        part.data_regions.len() > 0,
        0 <= rest < part.format.block_align,
        data_bytes(part.data_regions) == n * part.format.block_align + rest,
    ensures
        part.fault(expected, total_frames) == Some(ExtractError::UnalignedData) <==> rest > 0,
{
    vstd::arithmetic::div_mod::lemma_fundamental_div_mod_converse(
        data_bytes(part.data_regions),
        part.format.block_align as int,
        n,
        rest,
    );
}

/// Without a limit all frames of all parts are written, and with a limit as many of them as it
/// allows, in the format of the first part.
pub proof fn law_limit_only_shortens(parts: Seq<PartView>, n: u64)
    requires
        0 <= frames_of(parts) <= u64::MAX,
    ensures
        planned(parts, None).frames_to_write == frames_of(parts),
        n >= frames_of(parts) ==> planned(parts, Some(n)).frames_to_write == frames_of(parts),
        n <= frames_of(parts) ==> planned(parts, Some(n)).frames_to_write == n,
        planned(parts, None).total_frames == frames_of(parts),
        planned(parts, Some(n)).total_frames == frames_of(parts),
        planned(parts, None).format == parts[0].format,
        planned(parts, Some(n)).format == parts[0].format,
{
}

/// The format of a recording is that of its first part.
pub proof fn law_first_part_sets_format(parts: Seq<PartView>)
    ensures
        parts.len() == 0 ==> format_of(parts) is None,
        parts.len() > 0 ==> format_of(parts) == Some(parts[0].format),
{
}

/// Parts are seen as they stand, in their order.
pub proof fn law_parts_as_they_stand(parts: Seq<InputPart>, i: int)
    requires
        0 <= i < parts.len(),
    ensures
        part_views(parts).len() == parts.len(),
        part_views(parts)[i].format == parts[i].format,
        part_views(parts)[i].data_regions == parts[i].data_regions@,
{
}

} // verus!
