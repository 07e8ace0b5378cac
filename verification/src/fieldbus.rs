//! The host-side virtual `CSP` drive image: a flat byte image of 13 bytes
//! per axis, outputs `[controlword:2][mode:1][target:4]` at bytes `0..7` and
//! inputs `[statusword:2][actual:4]` at bytes `7..13`, every word little-endian;
//! plus the per-axis fault and staleness injections the tests drive.

use vstd::prelude::*;

verus! {

/// Bytes per axis in the flat mock image.
pub const BYTES_PER_AXIS: usize = 13;

/// The statusword of a drive in `SwitchOnDisabled`.
pub const SW_SWITCH_ON_DISABLED: u16 = 0x0250;

/// Routing into the mock image: an axis index.
#[derive(Clone, Copy, Debug)]
pub struct MockRouting {
    /// Axis index.
    pub axis: u16,
}

/// The little-endian 16-bit word at `at` of `img`.
pub open spec fn le16(img: Seq<u8>, at: int) -> int {
    img[at] + 256 * img[at + 1]
}

/// The little-endian 32-bit two's-complement word at `at` of `img`.
pub open spec fn le32(img: Seq<u8>, at: int) -> int {
    let u = img[at] + 256 * img[at + 1] + 65536 * img[at + 2] + 16777216 * img[at + 3];
    if u >= 0x8000_0000 {
        u - 0x1_0000_0000
    } else {
        u
    }
}

/// The drive accessor over one axis's 13-byte slice of the mock image.
#[derive(Clone, Copy, Debug)]
pub struct MockDrive {
    base: usize,
}

impl MockDrive {
    /// The byte offset of this axis's slice in the image.
    pub closed spec fn spec_base(&self) -> int {
        self.base as int
    }

    /// The accessor for `axis`.
    pub fn for_axis(axis: u16) -> (r: MockDrive)
        ensures
            r.spec_base() == axis * BYTES_PER_AXIS,
    {
        MockDrive { base: (axis as usize) * BYTES_PER_AXIS }
    }

    /// The statusword the drive reports.
    pub fn statusword(&self, img: &[u8]) -> (r: u16)
        requires
            self.spec_base() + BYTES_PER_AXIS <= img@.len(),
        ensures
            r == le16(img@, self.spec_base() + 7),
    {
        let len = img.len();
        assert(len == img@.len());
        let lo = img[self.base + 7] as u16;
        let hi = img[self.base + 8] as u16;
        lo + 256 * hi
    }

    /// The controlword written to the drive.
    pub fn controlword(&self, img: &[u8]) -> (r: u16)
        requires
            self.spec_base() + BYTES_PER_AXIS <= img@.len(),
        ensures
            r == le16(img@, self.spec_base()),
    {
        let len = img.len();
        assert(len == img@.len());
        let lo = img[self.base] as u16;
        let hi = img[self.base + 1] as u16;
        lo + 256 * hi
    }

    /// Write the controlword.
    pub fn set_controlword(&self, img: &mut [u8], v: u16)
        requires
            self.spec_base() + BYTES_PER_AXIS <= old(img)@.len(),
        ensures
            final(img)@ == old(img)@.update(self.spec_base(), (v % 256) as u8).update(
                self.spec_base() + 1,
                (v / 256) as u8,
            ),
            le16(final(img)@, self.spec_base()) == v,
    {
        let len = img.len();
        assert(len == img@.len());
        img[self.base] = (v % 256) as u8;
        img[self.base + 1] = (v / 256) as u8;
    }

    /// Write the statusword (the drive side of the image).
    pub fn set_statusword(&self, img: &mut [u8], v: u16)
        requires
            self.spec_base() + BYTES_PER_AXIS <= old(img)@.len(),
        ensures
            final(img)@ == old(img)@.update(self.spec_base() + 7, (v % 256) as u8).update(
                self.spec_base() + 8,
                (v / 256) as u8,
            ),
            le16(final(img)@, self.spec_base() + 7) == v,
    {
        let len = img.len();
        assert(len == img@.len());
        img[self.base + 7] = (v % 256) as u8;
        img[self.base + 8] = (v / 256) as u8;
    }

    /// The actual position the drive reports, in increments.
    pub fn actual_position(&self, img: &[u8]) -> (r: i32)
        requires
            self.spec_base() + BYTES_PER_AXIS <= img@.len(),
        ensures
            r == le32(img@, self.spec_base() + 9),
    {
        let len = img.len();
        assert(len == img@.len());
        word32(img, self.base + 9)
    }

    /// The target position written to the drive, in increments.
    pub fn target_position(&self, img: &[u8]) -> (r: i32)
        requires
            self.spec_base() + BYTES_PER_AXIS <= img@.len(),
        ensures
            r == le32(img@, self.spec_base() + 3),
    {
        let len = img.len();
        assert(len == img@.len());
        word32(img, self.base + 3)
    }

    /// Write the target position.
    pub fn set_target_position(&self, img: &mut [u8], p: i32)
        requires
            self.spec_base() + BYTES_PER_AXIS <= old(img)@.len(),
        ensures
            final(img)@.len() == old(img)@.len(),
            le32(final(img)@, self.spec_base() + 3) == p,
            forall|i: int| 0 <= i < old(img)@.len() && !(self.spec_base() + 3 <= i < self.spec_base() + 7) ==> final(img)@[i] == old(img)@[i],
    {
        let len = img.len();
        assert(len == img@.len());
        set_word32(img, self.base + 3, p);
    }

    /// Write the mode of operation.
    pub fn set_mode(&self, img: &mut [u8], m: u8)
        requires
            self.spec_base() + BYTES_PER_AXIS <= old(img)@.len(),
        ensures
            final(img)@ == old(img)@.update(self.spec_base() + 2, m),
    {
        let len = img.len();
        assert(len == img@.len());
        img[self.base + 2] = m;
    }
}

/// The states of the `CiA` 402 drive power machine.
#[derive(Clone, Copy, Debug, PartialEq, Eq, Structural)]
pub enum DriveState {
    /// Not ready to switch on.
    NotReadyToSwitchOn,
    /// Switch on disabled.
    SwitchOnDisabled,
    /// Ready to switch on.
    ReadyToSwitchOn,
    /// Switched on.
    SwitchedOn,
    /// Operation enabled.
    OperationEnabled,
    /// Quick stop active.
    QuickStopActive,
    /// Fault reaction active.
    FaultReactionActive,
    /// Fault.
    Fault,
}

/// The statusword the virtual drive reports in state `s`.
pub open spec fn state_word(s: DriveState) -> u16 {
    match s {
        DriveState::SwitchOnDisabled => 0x0250,
        DriveState::ReadyToSwitchOn => 0x0231,
        DriveState::SwitchedOn => 0x0233,
        DriveState::OperationEnabled => 0x0237,
        DriveState::QuickStopActive => 0x0207,
        DriveState::FaultReactionActive => 0x020F,
        DriveState::Fault => 0x0208,
        DriveState::NotReadyToSwitchOn => 0x0000,
    }
}

/// The statusword the virtual drive reports in state `s`.
pub fn encode_state(s: DriveState) -> (r: u16)
    ensures
        r == state_word(s),
{
    match s {
        DriveState::SwitchOnDisabled => 0x0250,
        DriveState::ReadyToSwitchOn => 0x0231,
        DriveState::SwitchedOn => 0x0233,
        DriveState::OperationEnabled => 0x0237,
        DriveState::QuickStopActive => 0x0207,
        DriveState::FaultReactionActive => 0x020F,
        DriveState::Fault => 0x0208,
        DriveState::NotReadyToSwitchOn => 0x0000,
    }
}

/// The four controlwords of the power handshake.
#[derive(Clone, Copy, Debug)]
pub struct Controlwords {
    /// `SwitchOnDisabled` to `ReadyToSwitchOn`.
    pub shutdown: u16,
    /// `ReadyToSwitchOn` to `SwitchedOn`.
    pub switch_on: u16,
    /// `SwitchedOn` to `OperationEnabled`.
    pub enable_operation: u16,
    /// `Fault` back to `SwitchOnDisabled`.
    pub fault_reset: u16,
}

/// The state a perfect virtual drive in state `s` moves to on controlword
/// `ctrl`: one step of the power handshake when `ctrl` is the matching
/// command, otherwise it stays where it is.
pub open spec fn next_state(s: DriveState, ctrl: int, cw: Controlwords) -> DriveState {
    if s == DriveState::SwitchOnDisabled && ctrl == cw.shutdown {
        DriveState::ReadyToSwitchOn
    } else if s == DriveState::ReadyToSwitchOn && ctrl == cw.switch_on {
        DriveState::SwitchedOn
    } else if s == DriveState::SwitchedOn && ctrl == cw.enable_operation {
        DriveState::OperationEnabled
    } else if s == DriveState::Fault && ctrl == cw.fault_reset {
        DriveState::SwitchOnDisabled
    } else {
        s
    }
}

/// The state a perfect virtual drive in state `s` moves to on controlword
/// `ctrl`.
pub fn step_state(s: DriveState, ctrl: u16, cw: Controlwords) -> (r: DriveState)
    ensures
        r == next_state(s, ctrl as int, cw),
{
    if s == DriveState::SwitchOnDisabled && ctrl == cw.shutdown {
        DriveState::ReadyToSwitchOn
    } else if s == DriveState::ReadyToSwitchOn && ctrl == cw.switch_on {
        DriveState::SwitchedOn
    } else if s == DriveState::SwitchedOn && ctrl == cw.enable_operation {
        DriveState::OperationEnabled
    } else if s == DriveState::Fault && ctrl == cw.fault_reset {
        DriveState::SwitchOnDisabled
    } else {
        s
    }
}

/// The bytes `lo..hi` are the same in `before` and `after`.
pub open spec fn unchanged(before: Seq<u8>, after: Seq<u8>, lo: int, hi: int) -> bool {
    forall|i: int| lo <= i < hi ==> #[trigger] after[i] == before[i]
}

/// One exchange of the drive whose 13-byte slice starts at `b`, as `after`
/// shows it against `before`: a faulted drive reports `Fault`; any other
/// drive, decoded as `d`, takes one step on its controlword and reports the
/// new state, and when that state is `OperationEnabled` its actual position
/// follows the target. The output bytes stay as they were.
pub open spec fn exchanged_axis(
    before: Seq<u8>,
    after: Seq<u8>,
    b: int,
    faulted: bool,
    d: DriveState,
    cw: Controlwords,
) -> bool {
    let ns = next_state(d, le16(before, b), cw);
    &&& unchanged(before, after, b, b + 7)
    &&& if faulted {
        &&& le16(after, b + 7) == 0x0208
        &&& unchanged(before, after, b + 9, b + 13)
    } else {
        &&& le16(after, b + 7) == state_word(ns)
        &&& if ns == DriveState::OperationEnabled {
            le32(after, b + 9) == le32(before, b + 3)
        } else {
            unchanged(before, after, b + 9, b + 13)
        }
    }
}

/// Axis `a` after one bus exchange: a stale axis drops out of the cycle and
/// keeps its slice; a fresh one is exchanged.
pub open spec fn axis_after_exchange(
    before: Seq<u8>,
    after: Seq<u8>,
    a: int,
    stale: Seq<bool>,
    faulted: Seq<bool>,
    decoded: Seq<DriveState>,
    cw: Controlwords,
) -> bool {
    if stale[a] {
        unchanged(before, after, a * 13, a * 13 + 13)
    } else {
        exchanged_axis(before, after, a * 13, faulted[a], decoded[a], cw)
    }
}

/// What one bus exchange reports.
#[derive(Clone, Copy, Debug, PartialEq, Eq, Structural)]
pub struct CycleQuality {
    /// The index of the exchanged cycle.
    pub cycle_index: u64,
    /// Whether no device was stale.
    pub all_devices_fresh: bool,
}

/// The little-endian 32-bit two's-complement word at `at`.
fn word32(img: &[u8], at: usize) -> (r: i32)
    requires
        at + 4 <= img@.len(),
    ensures
        r == le32(img@, at as int),
{
    let u: u64 = img[at] as u64 + 256 * (img[at + 1] as u64) + 65536 * (img[at + 2] as u64) + 16777216 * (img[at + 3] as u64);
    if u >= 0x8000_0000 {
        let s: i64 = (u as i64) - 0x1_0000_0000;
        s as i32
    } else {
        u as i32
    }
}

/// Write the little-endian 32-bit two's-complement word `p` at `at`.
fn set_word32(img: &mut [u8], at: usize, p: i32)
    requires
        at + 4 <= old(img)@.len(),
    ensures
        final(img)@.len() == old(img)@.len(),
        le32(final(img)@, at as int) == p,
        forall|i: int| 0 <= i < old(img)@.len() && !(at <= i < at + 4) ==> final(img)@[i] == old(img)@[i],
{
    let u: u64 = if p < 0 {
        ((p as i64) + 0x1_0000_0000) as u64
    } else {
        p as u64
    };
    img[at] = (u % 256) as u8;
    img[at + 1] = ((u / 256) % 256) as u8;
    img[at + 2] = ((u / 65536) % 256) as u8;
    img[at + 3] = (u / 16777216) as u8;
    proof {
        let v = final(img)@;
        assert(v[at as int] + 256 * v[at + 1] + 65536 * v[at + 2] + 16777216 * v[at + 3] == u) by (nonlinear_arith)
            requires
                v[at as int] == u % 256,
                v[at + 1] == (u / 256) % 256,
                v[at + 2] == (u / 65536) % 256,
                v[at + 3] == u / 16777216,
                u < 0x1_0000_0000,
        ;
    }
}

/// The virtual multi-axis `CSP` bus image with its per-axis fault and
/// staleness injections.
#[derive(Debug)]
pub struct MockCyclicFieldbus {
    n: usize,
    img: Vec<u8>,
    cycle: u64,
    faulted: Vec<bool>,
    stale: Vec<bool>,
}

impl MockCyclicFieldbus {
    /// The number of axes.
    pub closed spec fn spec_axes(&self) -> nat {
        self.n as nat
    }

    /// The bus image.
    pub closed spec fn spec_image(&self) -> Seq<u8> {
        self.img@
    }

    /// The exchanged-cycle counter.
    pub closed spec fn spec_cycle(&self) -> u64 {
        self.cycle
    }

    /// Which axes carry a latched injected fault.
    pub closed spec fn spec_faulted(&self) -> Seq<bool> {
        self.faulted@
    }

    /// Which axes are stale (dropped out of the cycle).
    pub closed spec fn spec_stale(&self) -> Seq<bool> {
        self.stale@
    }

    /// The shape invariant: a 13-byte slice and one fault and staleness flag
    /// per axis.
    pub closed spec fn wf(&self) -> bool {
        &&& self.img@.len() == self.n * BYTES_PER_AXIS
        &&& self.faulted@.len() == self.n
        &&& self.stale@.len() == self.n
    }

    /// The shape of a well-formed bus: one fault and one staleness flag per
    /// axis, and a 13-byte image slice per axis.
    pub proof fn lemma_wf_lengths(&self)
        requires
            self.wf(),
        ensures
            self.spec_faulted().len() == self.spec_axes(),
            self.spec_stale().len() == self.spec_axes(),
            self.spec_image().len() == self.spec_axes() * BYTES_PER_AXIS,
    {
    }

    /// A bus with `n` drives, each in `SwitchOnDisabled` with a zero
    /// controlword, none faulted or stale.
    pub fn new(n: usize) -> (r: MockCyclicFieldbus)
        requires
            n * BYTES_PER_AXIS <= usize::MAX,
        ensures
            r.wf(),
            r.spec_axes() == n,
            r.spec_cycle() == 0,
            forall|a: int| 0 <= a < n ==> !#[trigger] r.spec_faulted()[a],
            forall|a: int| 0 <= a < n ==> !#[trigger] r.spec_stale()[a],
            forall|a: int, k: int|
                0 <= a < n && 0 <= k < BYTES_PER_AXIS ==> #[trigger] r.spec_image()[a * BYTES_PER_AXIS + k] == if k
                    == 7 {
                    0x50u8
                } else if k == 8 {
                    0x02u8
                } else {
                    0u8
                },
    {
        let len = n * BYTES_PER_AXIS;
        let mut img: Vec<u8> = Vec::new();
        let mut i: usize = 0;
        while i < len
            invariant
                len == n * BYTES_PER_AXIS,
                i <= len,
                img@.len() == i,
                forall|j: int| 0 <= j < i ==> #[trigger] img@[j] == if j % 13 == 7 {
                    0x50u8
                } else if j % 13 == 8 {
                    0x02u8
                } else {
                    0u8
                },
            decreases len - i,
        {
            let k = i % BYTES_PER_AXIS;
            let b: u8 = if k == 7 {
                0x50
            } else if k == 8 {
                0x02
            } else {
                0
            };
            img.push(b);
            i = i + 1;
        }
        let mut faulted: Vec<bool> = Vec::new();
        let mut stale: Vec<bool> = Vec::new();
        let mut a: usize = 0;
        while a < n
            invariant
                a <= n,
                faulted@.len() == a,
                stale@.len() == a,
                forall|j: int| 0 <= j < a ==> !#[trigger] faulted@[j],
                forall|j: int| 0 <= j < a ==> !#[trigger] stale@[j],
            decreases n - a,
        {
            faulted.push(false);
            stale.push(false);
            a = a + 1;
        }
        let r = MockCyclicFieldbus { n, img, cycle: 0, faulted, stale };
        proof {
            assert forall|a: int| 0 <= a < n implies !#[trigger] r.spec_faulted()[a] by {
                assert(!faulted@[a]);
            }
            assert forall|a: int| 0 <= a < n implies !#[trigger] r.spec_stale()[a] by {
                assert(!stale@[a]);
            }
            assert forall|a: int, k: int|
                0 <= a < n && 0 <= k < BYTES_PER_AXIS implies #[trigger] r.img@[a * BYTES_PER_AXIS + k] == if k == 7 {
                    0x50u8
                } else if k == 8 {
                    0x02u8
                } else {
                    0u8
                } by {
                let j = a * 13 + k;
                assert(j % 13 == k) by (nonlinear_arith)
                    requires
                        j == a * 13 + k,
                        0 <= k < 13,
                        0 <= a,
                ;
                assert(0 <= j < n * 13) by (nonlinear_arith)
                    requires
                        j == a * 13 + k,
                        0 <= k < 13,
                        0 <= a < n,
                ;
            }
        }
        r
    }

    /// The number of cycles exchanged so far.
    pub fn cycle_count(&self) -> (r: u64)
        ensures
            r == self.spec_cycle(),
    {
        self.cycle
    }

    /// Read-only access to the image (test helper).
    pub fn with_image<R, F: FnOnce(&[u8]) -> R>(&self, f: F) -> (r: R)
        requires
            forall|s: &[u8]| s@ == self.spec_image() ==> #[trigger] f.requires((s,)),
        ensures
            exists|s: &[u8]| s@ == self.spec_image() && #[trigger] f.ensures((s,), r),
    {
        f(self.img.as_slice())
    }

    /// Mutable access to the image (test helper): `f` sees the image and
    /// what it leaves there is the new image.
    pub fn with_image_mut<R, F: FnOnce(&mut [u8]) -> R>(&mut self, f: F) -> (r: R)
        requires
            forall|s: &mut [u8]| s@ == old(self).spec_image() ==> #[trigger] f.requires((s,)),
        ensures
            final(self).spec_axes() == old(self).spec_axes(),
            final(self).spec_faulted() == old(self).spec_faulted(),
            final(self).spec_stale() == old(self).spec_stale(),
            final(self).spec_cycle() == old(self).spec_cycle(),
            exists|s: &mut [u8]|
                s@ == old(self).spec_image() && #[trigger] f.ensures((s,), r) && final(s)@
                    == final(self).spec_image(),
    {
        f(self.img.as_mut_slice())
    }

    /// Exchange axis `a`, whose statusword decodes to `d`.
    fn advance_drive(&mut self, a: usize, d: DriveState, cw: Controlwords)
        requires
            old(self).wf(),
            a < old(self).spec_axes(),
        ensures
            final(self).wf(),
            final(self).spec_axes() == old(self).spec_axes(),
            final(self).spec_faulted() == old(self).spec_faulted(),
            final(self).spec_stale() == old(self).spec_stale(),
            final(self).spec_cycle() == old(self).spec_cycle(),
            exchanged_axis(
                old(self).spec_image(),
                final(self).spec_image(),
                a * 13,
                old(self).spec_faulted()[a as int],
                d,
                cw,
            ),
            forall|i: int|
                0 <= i < old(self).spec_image().len() && !(a * 13 + 7 <= i < a * 13 + 13)
                    ==> #[trigger] final(self).spec_image()[i] == old(self).spec_image()[i],
    {
        let len = self.img.len();
        assert(a * 13 + 13 <= self.n * 13) by (nonlinear_arith)
            requires
                a < self.n,
        ;
        let b = a * BYTES_PER_AXIS;
        let drive = MockDrive { base: b };
        if self.faulted[a] {
            drive.set_statusword(self.img.as_mut_slice(), 0x0208);
            return;
        }
        let ctrl = drive.controlword(self.img.as_slice());
        let next = step_state(d, ctrl, cw);
        let word = encode_state(next);
        drive.set_statusword(self.img.as_mut_slice(), word);
        if next == DriveState::OperationEnabled {
            let target = drive.target_position(self.img.as_slice());
            set_word32(self.img.as_mut_slice(), b + 9, target);
        }
    }

    /// One bus cycle: every drive that is not stale is exchanged (`decoded`
    /// holds, per axis, the state its statusword decodes to), the cycle counter
    /// advances, and the quality of the cycle is reported.
    pub fn exchange(&mut self, decoded: &[DriveState], cw: Controlwords) -> (q: CycleQuality)
        requires
            old(self).wf(),
            decoded@.len() == old(self).spec_axes(),
            old(self).spec_cycle() < u64::MAX,
        ensures
            final(self).wf(),
            final(self).spec_axes() == old(self).spec_axes(),
            final(self).spec_faulted() == old(self).spec_faulted(),
            final(self).spec_stale() == old(self).spec_stale(),
            final(self).spec_cycle() == old(self).spec_cycle() + 1,
            q.cycle_index == old(self).spec_cycle(),
            q.all_devices_fresh == forall|a: int|
                0 <= a < old(self).spec_axes() ==> !#[trigger] old(self).spec_stale()[a],
            forall|a: int|
                0 <= a < old(self).spec_axes() ==> #[trigger] axis_after_exchange(
                    old(self).spec_image(),
                    final(self).spec_image(),
                    a,
                    old(self).spec_stale(),
                    old(self).spec_faulted(),
                    decoded@,
                    cw,
                ),
    {
        let ghost before = self.img@;
        let n = self.n;
        let mut a: usize = 0;
        while a < n
            invariant
                self.wf(),
                n == self.n,
                n == old(self).spec_axes(),
                a <= n,
                before == old(self).spec_image(),
                decoded@.len() == n,
                self.faulted@ == old(self).spec_faulted(),
                self.stale@ == old(self).spec_stale(),
                self.cycle == old(self).spec_cycle(),
                forall|j: int|
                    0 <= j < a ==> #[trigger] axis_after_exchange(
                        before,
                        self.img@,
                        j,
                        self.stale@,
                        self.faulted@,
                        decoded@,
                        cw,
                    ),
                unchanged(before, self.img@, a * 13, n * 13),
            decreases n - a,
        {
            if !self.stale[a] {
                let ghost mid = self.img@;
                self.advance_drive(a, decoded[a], cw);
                proof {
                    let after = self.img@;
                    assert forall|j: int| 0 <= j < a implies #[trigger] axis_after_exchange(
                        before,
                        after,
                        j,
                        self.stale@,
                        self.faulted@,
                        decoded@,
                        cw,
                    ) by {
                        assert(axis_after_exchange(before, mid, j, self.stale@, self.faulted@, decoded@, cw));
                        assert(unchanged(mid, after, j * 13, j * 13 + 13));
                    }
                    assert(exchanged_axis(mid, after, a * 13, self.faulted@[a as int], decoded@[a as int], cw));
                    assert(unchanged(before, mid, a * 13, a * 13 + 13));
                    assert(axis_after_exchange(before, after, a as int, self.stale@, self.faulted@, decoded@, cw));
                }
            }
            a = a + 1;
        }
        let mut fresh = true;
        let mut k: usize = 0;
        while k < n
            invariant
                self.wf(),
                n == self.n,
                k <= n,
                fresh == forall|j: int| 0 <= j < k ==> !#[trigger] self.stale@[j],
            decreases n - k,
        {
            if self.stale[k] {
                fresh = false;
            }
            k = k + 1;
        }
        let q = CycleQuality { cycle_index: self.cycle, all_devices_fresh: fresh };
        self.cycle = self.cycle + 1;
        q
    }

    /// Copy axis `r`'s inputs (statusword and actual position, six bytes)
    /// into the front of `dst`; report whether the device is fresh.
    pub fn read_input(&self, r: &MockRouting, dst: &mut [u8]) -> (fresh: bool)
        requires
            self.wf(),
            r.axis < self.spec_axes(),
            6 <= old(dst)@.len(),
        ensures
            final(dst)@.len() == old(dst)@.len(),
            forall|k: int| 0 <= k < 6 ==> #[trigger] final(dst)@[k] == self.spec_image()[r.axis * 13 + 7 + k],
            forall|k: int| 6 <= k < old(dst)@.len() ==> #[trigger] final(dst)@[k] == old(dst)@[k],
            fresh == !self.spec_stale()[r.axis as int],
    {
        let axis = r.axis as usize;
        let len = self.img.len();
        assert(axis * 13 + 13 <= self.n * 13) by (nonlinear_arith)
            requires
                axis < self.n,
        ;
        let b = axis * BYTES_PER_AXIS + 7;
        let mut k: usize = 0;
        while k < 6
            invariant
                self.wf(),
                b == axis * 13 + 7,
                b + 6 <= self.img@.len(),
                len == self.img@.len(),
                k <= 6,
                6 <= old(dst)@.len(),
                dst@.len() == old(dst)@.len(),
                forall|j: int| 0 <= j < k ==> #[trigger] dst@[j] == self.img@[b + j],
                forall|j: int| k <= j < old(dst)@.len() ==> #[trigger] dst@[j] == old(dst)@[j],
            decreases 6 - k,
        {
            dst[k] = self.img[b + k];
            k = k + 1;
        }
        !self.stale[axis]
    }

    /// Copy the front of `src` (controlword, mode and target, seven bytes)
    /// into axis `r`'s outputs.
    pub fn write_output(&mut self, r: &MockRouting, src: &[u8])
        requires
            old(self).wf(),
            r.axis < old(self).spec_axes(),
            7 <= src@.len(),
        ensures
            final(self).wf(),
            final(self).spec_axes() == old(self).spec_axes(),
            final(self).spec_faulted() == old(self).spec_faulted(),
            final(self).spec_stale() == old(self).spec_stale(),
            final(self).spec_cycle() == old(self).spec_cycle(),
            forall|k: int| 0 <= k < 7 ==> #[trigger] final(self).spec_image()[r.axis * 13 + k] == src@[k],
            forall|i: int|
                0 <= i < old(self).spec_image().len() && !(r.axis * 13 <= i < r.axis * 13 + 7)
                    ==> #[trigger] final(self).spec_image()[i] == old(self).spec_image()[i],
    {
        let len = self.img.len();
        assert(r.axis * 13 + 13 <= self.n * 13) by (nonlinear_arith)
            requires
                r.axis < self.n,
        ;
        let b = (r.axis as usize) * BYTES_PER_AXIS;
        let mut k: usize = 0;
        while k < 7
            invariant
                b == r.axis * 13,
                b + 13 <= self.img@.len(),
                len == self.img@.len(),
                k <= 7,
                7 <= src@.len(),
                self.img@.len() == old(self).spec_image().len(),
                self.n == old(self).n,
                self.faulted@ == old(self).spec_faulted(),
                self.stale@ == old(self).spec_stale(),
                self.cycle == old(self).spec_cycle(),
                forall|j: int| 0 <= j < k ==> #[trigger] self.img@[b + j] == src@[j],
                forall|i: int|
                    0 <= i < self.img@.len() && !(b <= i < b + k) ==> #[trigger] self.img@[i]
                        == old(self).spec_image()[i],
            decreases 7 - k,
        {
            self.img.set(b + k, src[k]);
            k = k + 1;
        }
    }

    /// Inject a latched hard fault on axis `a`: the drive reports `Fault` on
    /// every exchange until the injection is lifted.
    pub fn inject_fault(&mut self, a: usize)
        requires
            old(self).wf(),
            a < old(self).spec_axes(),
        ensures
            final(self).wf(),
            final(self).spec_faulted() == old(self).spec_faulted().update(a as int, true),
            final(self).spec_stale() == old(self).spec_stale(),
            final(self).spec_image() == old(self).spec_image(),
            final(self).spec_axes() == old(self).spec_axes(),
            final(self).spec_cycle() == old(self).spec_cycle(),
    {
        self.faulted.set(a, true);
    }

    /// Lift the latched hard fault on axis `a` (undoes
    /// [`MockCyclicFieldbus::inject_fault`]); the drive keeps its current
    /// statusword until the next exchange.
    pub fn clear_fault(&mut self, a: usize)
        requires
            old(self).wf(),
            a < old(self).spec_axes(),
        ensures
            final(self).wf(),
            final(self).spec_faulted() == old(self).spec_faulted().update(a as int, false),
            final(self).spec_stale() == old(self).spec_stale(),
            final(self).spec_image() == old(self).spec_image(),
            final(self).spec_axes() == old(self).spec_axes(),
            final(self).spec_cycle() == old(self).spec_cycle(),
    {
        self.faulted.set(a, false);
    }

    /// Make axis `a`'s device stale (`on`) or fresh again.
    pub fn inject_stale(&mut self, a: usize, on: bool)
        requires
            old(self).wf(),
            a < old(self).spec_axes(),
        ensures
            final(self).wf(),
            final(self).spec_stale() == old(self).spec_stale().update(a as int, on),
            final(self).spec_faulted() == old(self).spec_faulted(),
            final(self).spec_image() == old(self).spec_image(),
            final(self).spec_axes() == old(self).spec_axes(),
            final(self).spec_cycle() == old(self).spec_cycle(),
    {
        self.stale.set(a, on);
    }
}

/// Injecting and then clearing a fault leaves the injections as they were
/// before, for an axis that was not faulted.
pub proof fn law_clear_undoes_inject(faulted: Seq<bool>, a: int)
    requires
        0 <= a < faulted.len(),
        !faulted[a],
    ensures
        faulted.update(a, true).update(a, false) == faulted,
{
    assert(faulted.update(a, true).update(a, false) =~= faulted);
}

/// An injected fault is latched: in every exchange while it stays injected, a
/// fresh faulted drive reports the `Fault` statusword (`0x0208`), whatever
/// controlword it was given, `FAULT_RESET` included; its outputs and actual
/// position stay as they were. (An exchange leaves the injections as they
/// are, so the fault holds from one exchange to the next until it is
/// cleared.)
pub proof fn law_injected_fault_is_latched(
    before: Seq<u8>,
    after: Seq<u8>,
    a: int,
    stale: Seq<bool>,
    faulted: Seq<bool>,
    decoded: Seq<DriveState>,
    cw: Controlwords,
)
    requires
        faulted[a],
        !stale[a],
        axis_after_exchange(before, after, a, stale, faulted, decoded, cw),
    ensures
        le16(after, a * 13 + 7) == 0x0208,
        unchanged(before, after, a * 13, a * 13 + 7),
        unchanged(before, after, a * 13 + 9, a * 13 + 13),
{
}

} // verus!
