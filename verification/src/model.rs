//! The records of a DDI file, as this library holds them, and their views.
//!
//! Text is held as the UTF-8 bytes of the (lossily decoded) string. Floating
//! point fields are held as the raw IEEE-754 bits read from the file.
//! Maps keep the order and the replacement rule of a `BTreeMap`.

use vstd::prelude::*;
use crate::ordmap::OrdMap;

verus! {

/// An EpR frame reference: where in the DDI the offset field sits, and the
/// offset it holds.
#[derive(Debug, Clone, Copy, PartialEq, Eq, Structural)]
pub struct EprRef {
    pub pos: u64,
    pub off: u64,
}

/// A sound reference: where in the DDI the offset field sits, the offset it
/// holds (as reported), and the sound id.
#[derive(Debug, Clone, Copy, PartialEq, Eq, Structural)]
pub struct SndRef {
    pub pos: u64,
    pub off: u64,
    pub id: u32,
}

/// The pitch and timing parameters of a sample, as raw bits: `duration` of an
/// `f64`, the others of `f32`s.
#[derive(Debug, Clone, Copy, PartialEq, Eq, Structural)]
pub struct VoiceParams {
    pub duration: u64,
    pub pitch1: u32,
    pub pitch2: u32,
    pub unknown2: u32,
    pub dynamics: u32,
    pub tempo: u32,
}

/// One group of a frame alignment.
#[derive(Debug, Clone, Copy, PartialEq, Eq, Structural)]
pub struct AlignGroup {
    pub start: u32,
    pub end: u32,
    pub start2: u32,
    pub end2: u32,
}

impl DeepView for EprRef {
    type V = EprRef;

    open spec fn deep_view(&self) -> EprRef {
        *self
    }
}

impl DeepView for SndRef {
    type V = SndRef;

    open spec fn deep_view(&self) -> SndRef {
        *self
    }
}

impl DeepView for VoiceParams {
    type V = VoiceParams;

    open spec fn deep_view(&self) -> VoiceParams {
        *self
    }
}

impl DeepView for AlignGroup {
    type V = AlignGroup;

    open spec fn deep_view(&self) -> AlignGroup {
        *self
    }
}

/// The frame alignment of an articulation sample.
pub enum FrameAlign {
    /// No alignment block was found.
    Absent,
    /// A block of at most four bytes: its little-endian words.
    Values(Vec<u32>),
    /// A counted list of groups.
    Groups(Vec<AlignGroup>),
}

pub enum FrameAlignV {
    Absent,
    Values(Seq<u32>),
    Groups(Seq<AlignGroup>),
}

impl DeepView for FrameAlign {
    type V = FrameAlignV;

    open spec fn deep_view(&self) -> FrameAlignV {
        match self {
            FrameAlign::Absent => FrameAlignV::Absent,
            FrameAlign::Values(v) => FrameAlignV::Values(v@),
            FrameAlign::Groups(g) => FrameAlignV::Groups(g@),
        }
    }
}

/// A stationary sample.
pub struct StapItem {
    pub params: VoiceParams,
    pub epr: Vec<EprRef>,
    pub fs: u32,
    pub snd: SndRef,
    pub snd_length: u32,
}

pub struct StapItemV {
    pub params: VoiceParams,
    pub epr: Seq<EprRef>,
    pub fs: u32,
    pub snd: SndRef,
    pub snd_length: u32,
}

impl DeepView for StapItem {
    type V = StapItemV;

    open spec fn deep_view(&self) -> StapItemV {
        StapItemV {
            params: self.params,
            epr: self.epr@,
            fs: self.fs,
            snd: self.snd,
            snd_length: self.snd_length,
        }
    }
}

/// A stationary: its phoneme and its samples, keyed by their index strings.
pub struct StaEntry {
    pub phoneme: Vec<u8>,
    pub stap: OrdMap<Vec<u8>, StapItem>,
}

pub struct StaEntryV {
    pub phoneme: Seq<u8>,
    pub stap: Seq<(Seq<u8>, StapItemV)>,
}

impl DeepView for StaEntry {
    type V = StaEntryV;

    open spec fn deep_view(&self) -> StaEntryV {
        StaEntryV { phoneme: self.phoneme@, stap: self.stap.deep_view() }
    }
}

/// An articulation sample.
pub struct ArtpItem {
    pub dev_artp: u64,
    pub params: VoiceParams,
    pub epr: Vec<EprRef>,
    pub fs: u32,
    pub snd: SndRef,
    pub snd_start: SndRef,
    pub frame_align: FrameAlign,
}

pub struct ArtpItemV {
    pub dev_artp: u64,
    pub params: VoiceParams,
    pub epr: Seq<EprRef>,
    pub fs: u32,
    pub snd: SndRef,
    pub snd_start: SndRef,
    pub frame_align: FrameAlignV,
}

impl DeepView for ArtpItem {
    type V = ArtpItemV;

    open spec fn deep_view(&self) -> ArtpItemV {
        ArtpItemV {
            dev_artp: self.dev_artp,
            params: self.params,
            epr: self.epr@,
            fs: self.fs,
            snd: self.snd,
            snd_start: self.snd_start,
            frame_align: self.frame_align.deep_view(),
        }
    }
}

/// The articulation units that follow a phoneme: the next phoneme and the
/// samples, keyed by the decimal digits of their indices.
pub struct ArtuEntry {
    pub phoneme: Vec<u8>,
    pub artp: OrdMap<Vec<u8>, ArtpItem>,
}

pub struct ArtuEntryV {
    pub phoneme: Seq<u8>,
    pub artp: Seq<(Seq<u8>, ArtpItemV)>,
}

impl DeepView for ArtuEntry {
    type V = ArtuEntryV;

    open spec fn deep_view(&self) -> ArtuEntryV {
        ArtuEntryV { phoneme: self.phoneme@, artp: self.artp.deep_view() }
    }
}

/// An articulation block: its phoneme, its units keyed by the decimal digits
/// of their indices (none when the block has no units), and the last nested
/// block it holds, with that block's index.
pub struct ArtBlock {
    pub phoneme: Vec<u8>,
    pub artu: OrdMap<Vec<u8>, ArtuEntry>,
    pub sub: Option<(u32, Box<ArtBlock>)>,
}

pub struct ArtBlockV {
    pub phoneme: Seq<u8>,
    pub artu: Seq<(Seq<u8>, ArtuEntryV)>,
    pub sub: Option<(u32, Box<ArtBlockV>)>,
}

pub open spec fn art_block_view(b: &ArtBlock) -> ArtBlockV
    decreases b,
{
    ArtBlockV {
        phoneme: b.phoneme@,
        artu: b.artu.deep_view(),
        sub: match &b.sub {
            Some(s) => Some((s.0, Box::new(art_block_view(&*s.1)))),
            None => None,
        },
    }
}

impl DeepView for ArtBlock {
    type V = ArtBlockV;

    open spec fn deep_view(&self) -> ArtBlockV {
        art_block_view(self)
    }
}

/// A growl sample of the VQM stream.
pub struct VqmItem {
    pub params: VoiceParams,
    pub epr: Vec<EprRef>,
    pub fs: u32,
    pub snd: SndRef,
}

pub struct VqmItemV {
    pub params: VoiceParams,
    pub epr: Seq<EprRef>,
    pub fs: u32,
    pub snd: SndRef,
}

impl DeepView for VqmItem {
    type V = VqmItemV;

    open spec fn deep_view(&self) -> VqmItemV {
        VqmItemV { params: self.params, epr: self.epr@, fs: self.fs, snd: self.snd }
    }
}

/// The phoneme dictionary of the PHDC block.
pub struct PhdcData {
    pub voiced: Vec<Vec<u8>>,
    pub unvoiced: Vec<Vec<u8>>,
    pub phg2: OrdMap<Vec<u8>, OrdMap<Vec<u8>, Vec<u8>>>,
    pub epr_guide: OrdMap<Vec<u8>, Vec<Vec<u8>>>,
}

pub struct PhdcDataV {
    pub voiced: Seq<Seq<u8>>,
    pub unvoiced: Seq<Seq<u8>>,
    pub phg2: Seq<(Seq<u8>, Seq<(Seq<u8>, Seq<u8>)>)>,
    pub epr_guide: Seq<(Seq<u8>, Seq<Seq<u8>>)>,
}

impl DeepView for PhdcData {
    type V = PhdcDataV;

    open spec fn deep_view(&self) -> PhdcDataV {
        PhdcDataV {
            voiced: self.voiced.deep_view(),
            unvoiced: self.unvoiced.deep_view(),
            phg2: self.phg2.deep_view(),
            epr_guide: self.epr_guide.deep_view(),
        }
    }
}

} // verus!
