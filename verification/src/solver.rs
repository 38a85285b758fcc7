//! Solver routing decisions, load placement, timing bookkeeping, and the
//! error types the solvers report, with the messages each one shows.

use vstd::prelude::*;
use crate::text::{decimal_text, push_decimal};

verus! {

/// CPU timing breakdown for the reference far-field kernel, in microseconds.
#[derive(Debug, Clone, Copy)]
pub struct KernelTiming {
    /// Host-side preparation time.
    pub prep_us: u64,
    /// Compute time for the far-field sum.
    pub exec_us: u64,
    /// Result transfer time (always 0 on the CPU path).
    pub retrieval_us: u64,
}

impl KernelTiming {
    /// Total of the three stages.
    pub fn total_us(&self) -> (r: u64)
        requires
            self.prep_us + self.exec_us + self.retrieval_us <= u64::MAX,
        ensures
            r == self.prep_us + self.exec_us + self.retrieval_us,
    {
        self.prep_us + self.exec_us + self.retrieval_us
    }
}

/// What kind of accelerated run a frontend asks for.
#[derive(Debug, Clone, Copy, PartialEq, Eq, Structural)]
pub enum AccelRequestKind {
    HybridGpuCandidate,
    GpuOnly,
}

/// Per-frequency scheduling decision for the hybrid sweep lane.
#[derive(Debug, Clone, Copy, PartialEq, Eq)]
pub enum DispatchDecision {
    RunOnGpu,
    FallbackToCpu { reason: &'static str },
}

/// Reason returned by [`dispatch_frequency_point`] for the CPU-fallback path.
pub const GPU_DISPATCH_NOT_WIRED: &'static str = "per-frequency GPU dispatch not yet wired (PH7-CHK-004)";

/// Decide whether a single frequency point should run on the GPU.
///
/// Per-frequency GPU dispatch is not wired, so every request falls back to
/// the CPU, with the reason saying so; CPU work is never reported as GPU work.
pub fn dispatch_frequency_point(request: AccelRequestKind) -> (r: DispatchDecision)
    ensures
        r == (DispatchDecision::FallbackToCpu { reason: GPU_DISPATCH_NOT_WIRED }),
{
    DispatchDecision::FallbackToCpu { reason: GPU_DISPATCH_NOT_WIRED }
}

/// How a deck's excitation is driven.
#[derive(Debug, Clone, Copy, PartialEq, Eq, Structural)]
pub enum HallenDrive {
    /// `EX 1`/`2`/`3`: receive, no driven feedpoint.
    PlaneWave,
    /// `EX 4`: a forced current rather than a forced voltage.
    CurrentSource,
    /// `EX 0`/`5`: the ordinary delta gap.
    DeltaGap,
}

/// The solve a deck needs: its drive, and whether the geometry requires the
/// conductor-path basis.
#[derive(Debug, Clone, Copy, PartialEq, Eq, Structural)]
pub struct HallenRoute {
    pub drive: HallenDrive,
    pub paths: bool,
}

impl HallenRoute {
    /// The `SOLVER_MODE` label this route reports.
    pub fn mode_label(&self) -> (r: &'static str)
        ensures
            r@ == match self.drive {
                HallenDrive::PlaneWave => "hallen-planewave"@,
                HallenDrive::CurrentSource => "hallen-current-source"@,
                HallenDrive::DeltaGap => "hallen"@,
            },
    {
        match self.drive {
            HallenDrive::PlaneWave => "hallen-planewave",
            HallenDrive::CurrentSource => "hallen-current-source",
            HallenDrive::DeltaGap => "hallen",
        }
    }
}

/// The drive a deck's excitation cards call for: a plane wave wins over a
/// current source, and a deck with neither is driven by delta gaps.
pub fn hallen_drive(has_plane_wave: bool, has_current_source: bool) -> (r: HallenDrive)
    ensures
        r == (if has_plane_wave {
            HallenDrive::PlaneWave
        } else if has_current_source {
            HallenDrive::CurrentSource
        } else {
            HallenDrive::DeltaGap
        }),
{
    if has_plane_wave {
        HallenDrive::PlaneWave
    } else if has_current_source {
        HallenDrive::CurrentSource
    } else {
        HallenDrive::DeltaGap
    }
}

/// Whether an `LD` card with tag `ld_tag` and segment range
/// `seg_first..=seg_last` applies to segment number `tag_index` of tag
/// `seg_tag`. Tag 0 means every tag; `seg_first == 0` every segment of the
/// tag; `seg_last == 0` the single segment `seg_first`.
pub fn segment_matches(ld_tag: u32, seg_first: u32, seg_last: u32, seg_tag: u32, tag_index: u32) -> (r: bool)
    ensures
        r == ((ld_tag == 0 || seg_tag == ld_tag) && (seg_first == 0 || (seg_first <= tag_index && tag_index
            <= (if seg_last == 0 {
            seg_first
        } else {
            seg_last
        })))),
{
    if ld_tag != 0 && seg_tag != ld_tag {
        return false;
    }
    if seg_first == 0 {
        return true;
    }
    let last = if seg_last == 0 {
        seg_first
    } else {
        seg_last
    };
    tag_index >= seg_first && tag_index <= last
}

// ---------------------------------------------------------------------------
// Error types
// ---------------------------------------------------------------------------

/// Errors of the dense linear solve.
#[derive(Debug, Clone, PartialEq, Eq, Structural)]
pub enum SolveError {
    /// The impedance matrix is singular.
    Singular,
    /// `Z` and `V` disagree in size.
    DimensionMismatch { z_n: usize, v_len: usize },
    /// `Z` and the Hallén right-hand sides disagree in size.
    HallenDimensionMismatch { z_n: usize, rhs_len: usize, cos_len: usize },
}

/// Refuse a solve whose right-hand side `V` has a length other than the
/// order `z_n` of the impedance matrix.
pub fn check_dimensions(z_n: usize, v_len: usize) -> (r: Result<(), SolveError>)
    ensures
        r is Ok <==> v_len == z_n,
        r is Err ==> r == Err::<(), SolveError>(SolveError::DimensionMismatch { z_n, v_len }),
{
    if v_len != z_n {
        return Err(SolveError::DimensionMismatch { z_n, v_len });
    }
    Ok(())
}

/// Refuse a Hallén solve whose right-hand side or `cos(k s)` column has a
/// length other than the order `z_n` of the impedance matrix.
pub fn check_hallen_dimensions(z_n: usize, rhs_len: usize, cos_len: usize) -> (r: Result<(), SolveError>)
    ensures
        r is Ok <==> rhs_len == z_n && cos_len == z_n,
        r is Err ==> r == Err::<(), SolveError>(
            SolveError::HallenDimensionMismatch { z_n, rhs_len, cos_len },
        ),
{
    if rhs_len != z_n || cos_len != z_n {
        return Err(SolveError::HallenDimensionMismatch { z_n, rhs_len, cos_len });
    }
    Ok(())
}

pub open spec fn solve_message(e: SolveError) -> Seq<char> {
    match e {
        SolveError::Singular => "impedance matrix is singular"@,
        SolveError::DimensionMismatch { z_n, v_len } => "Z is "@ + decimal_text(z_n as nat)
            + "\u{d7}"@ + decimal_text(z_n as nat) + " but V has length "@ + decimal_text(
            v_len as nat,
        ),
        SolveError::HallenDimensionMismatch { z_n, rhs_len, cos_len } => "Z is "@ + decimal_text(
            z_n as nat,
        ) + "\u{d7}"@ + decimal_text(z_n as nat) + " but Hallen rhs/cos lengths are "@
            + decimal_text(rhs_len as nat) + "/"@ + decimal_text(cos_len as nat),
    }
}

impl SolveError {
    /// The message shown for this error.
    pub fn message(&self) -> (r: String)
        ensures
            r@ == solve_message(*self),
    {
        let mut r = String::new();
        match self {
            SolveError::Singular => {
                r.append("impedance matrix is singular");
            },
            SolveError::DimensionMismatch { z_n, v_len } => {
                r.append("Z is ");
                push_decimal(&mut r, *z_n as u64);
                r.append("\u{d7}");
                push_decimal(&mut r, *z_n as u64);
                r.append(" but V has length ");
                push_decimal(&mut r, *v_len as u64);
            },
            SolveError::HallenDimensionMismatch { z_n, rhs_len, cos_len } => {
                r.append("Z is ");
                push_decimal(&mut r, *z_n as u64);
                r.append("\u{d7}");
                push_decimal(&mut r, *z_n as u64);
                r.append(" but Hallen rhs/cos lengths are ");
                push_decimal(&mut r, *rhs_len as u64);
                r.append("/");
                push_decimal(&mut r, *cos_len as u64);
            },
        }
        r
    }
}

/// A solve produced a current that is not a finite number.
#[derive(Debug, Clone, Copy, PartialEq, Eq, Structural)]
pub struct NonFiniteCurrents {
    /// Index of the first segment whose current is not finite.
    pub first_bad: usize,
    /// Number of segments.
    pub total: usize,
}

pub open spec fn non_finite_message(e: NonFiniteCurrents) -> Seq<char> {
    "the solve did not converge: segment "@ + decimal_text(e.first_bad as nat) + " of "@
        + decimal_text(e.total as nat)
        + " has a current that is not a finite number, so everything derived from it \u{2014} impedance, pattern, gain \u{2014} would be meaningless"@
}

impl NonFiniteCurrents {
    /// The message shown for this error.
    pub fn message(&self) -> (r: String)
        ensures
            r@ == non_finite_message(*self),
    {
        let mut r = String::new();
        r.append("the solve did not converge: segment ");
        push_decimal(&mut r, self.first_bad as u64);
        r.append(" of ");
        push_decimal(&mut r, self.total as u64);
        r.append(
            " has a current that is not a finite number, so everything derived from it \u{2014} impedance, pattern, gain \u{2014} would be meaningless",
        );
        r
    }
}

/// Why a feedpoint has no impedance.
#[derive(Debug, Clone, Copy, PartialEq, Eq, Structural)]
pub enum FeedpointError {
    /// No current flows at the feed segment.
    NoCurrent { tag: usize, seg: usize },
    /// The current at the feed segment is not finite.
    NonFiniteCurrent { tag: usize, seg: usize },
}

pub open spec fn feedpoint_message(e: FeedpointError) -> Seq<char> {
    match e {
        FeedpointError::NoCurrent { tag, seg } => "no current flows at the feedpoint (tag "@
            + decimal_text(tag as nat) + ", segment "@ + decimal_text(seg as nat)
            + "), so it has no impedance: Z = V/I is undefined at I = 0. Common causes are a zero-amplitude source and a frequency so small the solve underflows"@,
        FeedpointError::NonFiniteCurrent { tag, seg } =>
            "the solved current at the feedpoint (tag "@ + decimal_text(tag as nat) + ", segment "@
            + decimal_text(seg as nat)
            + ") is not a finite number, so the solve did not converge and its impedance would be meaningless"@,
    }
}

impl FeedpointError {
    /// The message shown for this error.
    pub fn message(&self) -> (r: String)
        ensures
            r@ == feedpoint_message(*self),
    {
        let mut r = String::new();
        match self {
            FeedpointError::NoCurrent { tag, seg } => {
                r.append("no current flows at the feedpoint (tag ");
                push_decimal(&mut r, *tag as u64);
                r.append(", segment ");
                push_decimal(&mut r, *seg as u64);
                r.append(
                    "), so it has no impedance: Z = V/I is undefined at I = 0. Common causes are a zero-amplitude source and a frequency so small the solve underflows",
                );
            },
            FeedpointError::NonFiniteCurrent { tag, seg } => {
                r.append("the solved current at the feedpoint (tag ");
                push_decimal(&mut r, *tag as u64);
                r.append(", segment ");
                push_decimal(&mut r, *seg as u64);
                r.append(
                    ") is not a finite number, so the solve did not converge and its impedance would be meaningless",
                );
            },
        }
        r
    }
}

/// Errors of an excitation card that cannot be applied.
#[derive(Debug, Clone, PartialEq, Eq, Structural)]
pub enum ExcitationError {
    /// No segment carries the card's tag and segment number.
    SegmentNotFound { tag: u32, segment: u32 },
    /// The excitation type is not implemented.
    UnsupportedType { ex_type: u32, tag: u32, segment: u32, i4: u32 },
}

/// Errors of a current-source solve.
#[derive(Debug, Clone, PartialEq, Eq)]
pub enum CurrentSourceError {
    NoCurrentSource,
    UnsupportedTopology,
    NoFeedCurrent { tag: u32, segment: u32 },
    Excitation(ExcitationError),
    Solve(SolveError),
}

/// Errors of an MPIE solve.
#[derive(Debug, Clone, PartialEq, Eq, Structural)]
pub enum MpieError {
    Solve(SolveError),
    /// The node is not a degree-2 node that a delta gap could feed.
    InvalidFeed { node: usize },
}

pub open spec fn mpie_message(e: MpieError) -> Seq<char> {
    match e {
        MpieError::Solve(s) => "MPIE solve failed: "@ + solve_message(s),
        MpieError::InvalidFeed { node } => "node "@ + decimal_text(node as nat)
            + " is not a valid degree-2 feed node"@,
    }
}

impl MpieError {
    /// The message shown for this error.
    pub fn message(&self) -> (r: String)
        ensures
            r@ == mpie_message(*self),
    {
        match self {
            MpieError::Solve(e) => {
                let mut r = String::new();
                r.append("MPIE solve failed: ");
                let m = e.message();
                r.append(m.as_str());
                r
            },
            MpieError::InvalidFeed { node } => {
                let mut r = String::new();
                r.append("node ");
                push_decimal(&mut r, *node as u64);
                r.append(" is not a valid degree-2 feed node");
                r
            },
        }
    }
}

/// A deck the MPIE cannot solve, and why.
#[derive(Debug, Clone, PartialEq, Eq)]
pub enum MpieUnsupported {
    /// An incident plane wave (`EX` types 1-3).
    PlaneWave,
    /// An impressed current source (`EX` type 4).
    CurrentSource,
    /// A card whose effect the MPIE's basis cannot stamp: `LD`, `TL`, or `NT`.
    UnstampableCard(&'static str),
}

pub open spec fn mpie_subject(u: MpieUnsupported) -> Seq<char> {
    match u {
        MpieUnsupported::PlaneWave => "incident plane-wave excitation"@,
        MpieUnsupported::CurrentSource => "current-source excitation"@,
        MpieUnsupported::UnstampableCard(card) => card@,
    }
}

pub open spec fn unsupported_message(u: MpieUnsupported) -> Seq<char> {
    match u {
        MpieUnsupported::UnstampableCard(card) => card@ + ": not supported by the MPIE solver"@,
        _ => "EX: "@ + mpie_subject(u) + " is not supported by the MPIE solver"@,
    }
}

impl MpieUnsupported {
    /// What the deck carries, for a frontend composing its own sentence.
    pub fn subject(&self) -> (r: &'static str)
        ensures
            r@ == mpie_subject(*self),
    {
        match self {
            MpieUnsupported::PlaneWave => "incident plane-wave excitation",
            MpieUnsupported::CurrentSource => "current-source excitation",
            MpieUnsupported::UnstampableCard(card) => card,
        }
    }

    /// The message shown for this refusal.
    pub fn message(&self) -> (r: String)
        ensures
            r@ == unsupported_message(*self),
    {
        let mut r = String::new();
        match self {
            MpieUnsupported::UnstampableCard(card) => {
                r.append(card);
                r.append(": not supported by the MPIE solver");
            },
            _ => {
                r.append("EX: ");
                r.append(self.subject());
                r.append(" is not supported by the MPIE solver");
            },
        }
        r
    }
}

/// Errors of an MPIE session.
#[derive(Debug, Clone, PartialEq, Eq)]
pub enum MpieSessionError {
    Unsupported(MpieUnsupported),
    NoVoltageSource,
    DrivenSegmentNotFound { tag: u32, segment: u32 },
    NoInteriorNode,
    Solve(MpieError),
    NonFiniteCurrents(NonFiniteCurrents),
}

pub open spec fn mpie_session_message(e: MpieSessionError) -> Seq<char> {
    match e {
        MpieSessionError::Unsupported(u) => unsupported_message(u),
        MpieSessionError::NoVoltageSource =>
            "the MPIE solver requires a delta-gap voltage source (EX type 0 or 5)"@,
        MpieSessionError::DrivenSegmentNotFound { tag, segment } => "EX: driven segment "@
            + decimal_text(tag as nat) + "/"@ + decimal_text(segment as nat) + " not found"@,
        MpieSessionError::NoInteriorNode =>
            "the feed segment has no interior (degree-2) node to drive"@,
        MpieSessionError::Solve(s) => mpie_message(s),
        MpieSessionError::NonFiniteCurrents(n) => non_finite_message(n),
    }
}

impl MpieSessionError {
    /// The message shown for this error.
    pub fn message(&self) -> (r: String)
        ensures
            r@ == mpie_session_message(*self),
    {
        match self {
            MpieSessionError::Unsupported(u) => u.message(),
            MpieSessionError::NoVoltageSource => {
                "the MPIE solver requires a delta-gap voltage source (EX type 0 or 5)".to_owned()
            },
            MpieSessionError::DrivenSegmentNotFound { tag, segment } => {
                let mut r = String::new();
                r.append("EX: driven segment ");
                push_decimal(&mut r, *tag as u64);
                r.append("/");
                push_decimal(&mut r, *segment as u64);
                r.append(" not found");
                r
            },
            MpieSessionError::NoInteriorNode => {
                "the feed segment has no interior (degree-2) node to drive".to_owned()
            },
            MpieSessionError::Solve(e) => e.message(),
            MpieSessionError::NonFiniteCurrents(e) => e.message(),
        }
    }
}

/// Errors of a Hallén session.
#[derive(Debug, Clone, PartialEq, Eq)]
pub enum HallenSessionError {
    Excitation(String),
    PlaneWave(String),
    CurrentSource(CurrentSourceError),
    Solve(SolveError),
    NonFiniteCurrents(NonFiniteCurrents),
    Network(String),
}

/// Errors of a solve with two-port networks.
#[derive(Debug, Clone, PartialEq, Eq)]
pub enum NetworkSolveError<E> {
    Solve(E),
    Singular,
}

/// Errors of an incident-plane-wave solve.
#[derive(Debug, Clone, Copy, PartialEq, Eq, Structural)]
pub enum PlaneWaveError {
    NoPlaneWaveCard,
    JunctionedGeometryNotSupported,
}

pub open spec fn plane_wave_message(e: PlaneWaveError) -> Seq<char> {
    match e {
        PlaneWaveError::NoPlaneWaveCard => "EX: no incident-plane-wave (type 1/2/3) card found"@,
        PlaneWaveError::JunctionedGeometryNotSupported =>
            "EX: incident plane wave is supported on straight, non-junctioned wires; junctioned geometry is not yet supported"@,
    }
}

impl PlaneWaveError {
    /// The message shown for this error.
    pub fn message(&self) -> (r: String)
        ensures
            r@ == plane_wave_message(*self),
    {
        match self {
            PlaneWaveError::NoPlaneWaveCard => {
                "EX: no incident-plane-wave (type 1/2/3) card found".to_owned()
            },
            PlaneWaveError::JunctionedGeometryNotSupported => {
                "EX: incident plane wave is supported on straight, non-junctioned wires; junctioned geometry is not yet supported".to_owned()
            },
        }
    }
}

/// A warning about a load that could not be applied as written.
#[derive(Debug, Clone, PartialEq)]
pub struct LoadWarning {
    pub message: String,
}

} // verus!
