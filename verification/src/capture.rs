//! Captured screen contents, and the bookkeeping of a capture.

use vstd::prelude::*;

verus! {

/// One captured output, still in the compositor's pixel format.
pub struct Frame<'a> {
    /// Connector name (`DP-1`, `HDMI-A-1`), used to pair the shot with the
    /// monitor the launcher ends up on.
    pub connector: Option<String>,
    pub width: u32,
    pub height: u32,
    pub stride: u32,
    /// Byte offsets of red, green and blue within each 4 byte pixel.
    pub channels: (usize, usize, usize),
    pub data: Pixels<'a>,
}

/// The captured pixels. The compositor writes them into shared memory that is
/// read straight out of its mapping: a full screen frame is several megabytes
/// and copying it out first is pure latency.
pub enum Pixels<'a> {
    Mapped(Mapping<'a>),
    Owned(Vec<u8>),
}

/// A read-only view of the capture buffer, for as long as its owner keeps it
/// mapped.
pub struct Mapping<'a> {
    bytes: &'a [u8],
}

impl<'a> Frame<'a> {
    /// The channels lie inside a pixel.
    pub open spec fn wf(self) -> bool {
        self.channels.0 < 4 && self.channels.1 < 4 && self.channels.2 < 4
    }
}

impl<'a> View for Mapping<'a> {
    type V = Seq<u8>;

    closed spec fn view(&self) -> Seq<u8> {
        self.bytes@
    }
}

impl<'a> View for Pixels<'a> {
    type V = Seq<u8>;

    open spec fn view(&self) -> Seq<u8> {
        match *self {
            Pixels::Mapped(mapping) => mapping@,
            Pixels::Owned(data) => data@,
        }
    }
}

impl<'a> Mapping<'a> {
    /// A view of mapped memory; there is none of an empty mapping.
    pub fn new(bytes: &'a [u8]) -> (r: Option<Self>)
        ensures
            match r {
                Some(mapping) => bytes@.len() > 0 && mapping@ == bytes@,
                None => bytes@.len() == 0,
            },
    {
        if bytes.len() == 0 {
            None
        } else {
            Some(Mapping { bytes })
        }
    }

    pub fn bytes(&self) -> (r: &[u8])
        ensures
            r@ == self@,
    {
        self.bytes
    }
}

impl<'a> Pixels<'a> {
    /// The bytes, wherever they are kept.
    pub fn bytes(&self) -> (r: &[u8])
        ensures
            r@ == self@,
    {
        match self {
            Pixels::Mapped(mapping) => mapping.bytes(),
            Pixels::Owned(data) => data.as_slice(),
        }
    }
}

impl<'a> From<Vec<u8>> for Pixels<'a> {
    fn from(data: Vec<u8>) -> (r: Self) {
        Pixels::Owned(data)
    }
}

impl<'a> vstd::std_specs::convert::FromSpecImpl<Vec<u8>> for Pixels<'a> {
    open spec fn obeys_from_spec() -> bool {
        true
    }

    open spec fn from_spec(data: Vec<u8>) -> Self {
        Pixels::Owned(data)
    }
}

// ---------------------------------------------------------------------------
// Pixel formats
// ---------------------------------------------------------------------------

/// 32-bit ARGB, as shared memory pools number it.
pub const ARGB8888: u32 = 0;

/// 32-bit RGB with an unused byte in front.
pub const XRGB8888: u32 = 1;

/// 32-bit ABGR.
pub const ABGR8888: u32 = 0x3432_4241;

/// 32-bit BGR with an unused byte in front.
pub const XBGR8888: u32 = 0x3432_4258;

/// The formats with a byte for each channel, in any of their two orders.
pub open spec fn supported(format: u32) -> bool {
    format == XRGB8888 || format == ARGB8888 || format == XBGR8888 || format == ABGR8888
}

pub open spec fn offsets_of(format: u32) -> (usize, usize, usize) {
    if format == XRGB8888 || format == ARGB8888 {
        (2, 1, 0)
    } else {
        (0, 1, 2)
    }
}

/// Byte offsets of R, G and B inside a 32 bit pixel of the given format.
pub fn channel_offsets(format: u32) -> (r: (usize, usize, usize))
    ensures
        r == offsets_of(format),
        r.0 < 4 && r.1 < 4 && r.2 < 4,
{
    // Little endian 0xAARRGGBB lands in memory as B, G, R, A.
    if format == XRGB8888 || format == ARGB8888 {
        (2, 1, 0)
    } else {
        (0, 1, 2)
    }
}

pub fn is_supported(format: u32) -> (r: bool)
    ensures
        r == supported(format),
{
    format == XRGB8888 || format == ARGB8888 || format == XBGR8888 || format == ABGR8888
}

// ---------------------------------------------------------------------------
// The course of a capture
// ---------------------------------------------------------------------------

/// How often the compositor's events are waited for at most, so that one that
/// never answers cannot hang the launcher.
pub const MAX_TURNS: u32 = 200;

/// What is known of the shot of one output.
#[derive(Clone, Copy)]
pub struct Slot {
    /// The format to copy in, once a usable one has been advertised.
    pub format: Option<u32>,
    pub width: u32,
    pub height: u32,
    pub stride: u32,
    /// The buffer is there and the compositor was asked to fill it.
    pub requested: bool,
    /// The buffer is filled.
    pub ready: bool,
}

/// A capture of every output, one slot each.
pub struct State {
    pub manager_version: u32,
    pub connectors: Vec<Option<String>>,
    pub slots: Vec<Slot>,
    /// How many outputs have neither delivered nor failed.
    pub pending: usize,
}

/// What happens to a shot.
#[derive(Clone, Copy)]
pub enum Event {
    /// The compositor offers to copy in this shape.
    Buffer { format: u32, width: u32, height: u32, stride: u32 },
    /// Every offer has been made.
    BufferDone,
    /// The buffer that was asked for is there, and the copy has been asked for.
    Requested,
    Ready,
    Failed,
}

/// What to do about an event.
#[derive(Clone, Copy)]
pub enum Action {
    Nothing,
    /// Make a buffer of `size` bytes in this shape and ask for a copy.
    Copy { size: u64, format: u32, width: u32, height: u32, stride: u32 },
    /// The shot is over.
    Destroy,
}

pub open spec fn empty_slot() -> Slot {
    Slot { format: None, width: 0, height: 0, stride: 0, requested: false, ready: false }
}

/// A slot after an offer: the first usable one is taken.
pub open spec fn offered(slot: Slot, format: u32, width: u32, height: u32, stride: u32) -> Slot {
    if slot.format is None && supported(format) {
        Slot { format: Some(format), width, height, stride, ..slot }
    } else {
        slot
    }
}

/// A copy is asked for as soon as there is a format, until it has been.
pub open spec fn copy_of(slot: Slot) -> Action {
    match slot.format {
        Some(format) if !slot.requested => Action::Copy {
            size: (slot.stride * slot.height) as u64,
            format,
            width: slot.width,
            height: slot.height,
            stride: slot.stride,
        },
        _ => Action::Nothing,
    }
}

pub open spec fn slot_after(slot: Slot, event: Event) -> Slot {
    match event {
        Event::Buffer { format, width, height, stride } => offered(
            slot,
            format,
            width,
            height,
            stride,
        ),
        Event::BufferDone | Event::Failed => slot,
        Event::Requested => Slot { requested: true, ..slot },
        Event::Ready => Slot { ready: true, ..slot },
    }
}

/// Version 3 batches the offers and ends them with `BufferDone`; before it
/// there is one offer.
pub open spec fn action_after(version: u32, slot: Slot, event: Event) -> Action {
    match event {
        Event::Buffer { .. } if version < 3 => copy_of(slot_after(slot, event)),
        Event::BufferDone => copy_of(slot),
        Event::Ready | Event::Failed => Action::Destroy,
        _ => Action::Nothing,
    }
}

pub open spec fn pending_after(pending: int, event: Event) -> int {
    match event {
        Event::Ready | Event::Failed => if pending > 0 {
            pending - 1
        } else {
            pending
        },
        _ => pending,
    }
}

/// The slot holds a finished shot.
pub open spec fn finished(slot: Slot) -> bool {
    slot.ready && slot.requested && slot.format is Some
}

/// A slot after one event after the other.
pub open spec fn slot_after_all(slot: Slot, events: Seq<Event>) -> Slot
    decreases events.len(),
{
    if events.len() == 0 {
        slot
    } else {
        slot_after(slot_after_all(slot, events.drop_last()), events.last())
    }
}

/// How many of the events end a shot.
pub open spec fn endings(events: Seq<Event>) -> int
    decreases events.len(),
{
    if events.len() == 0 {
        0
    } else {
        endings(events.drop_last()) + match events.last() {
            Event::Ready | Event::Failed => 1int,
            _ => 0,
        }
    }
}

pub open spec fn pending_after_all(pending: int, events: Seq<Event>) -> int
    decreases events.len(),
{
    if events.len() == 0 {
        pending
    } else {
        pending_after(pending_after_all(pending, events.drop_last()), events.last())
    }
}

/// The wait is over as soon as as many shots have ended as were asked for, and
/// no sooner.
pub proof fn wait_ends_with_the_last_shot(pending: int, events: Seq<Event>)
    requires
        pending >= 0,
    ensures
        pending_after_all(pending, events) == (if endings(events) >= pending {
            0
        } else {
            pending - endings(events)
        }),
    decreases events.len(),
{
    if events.len() > 0 {
        wait_ends_with_the_last_shot(pending, events.drop_last());
    }
}

/// Once a format has been taken, no event changes the format or the size.
pub proof fn first_usable_offer_wins(slot: Slot, events: Seq<Event>)
    requires
        slot.format is Some,
    ensures
        ({
            let after = slot_after_all(slot, events);
            after.format == slot.format && after.width == slot.width && after.height
                == slot.height && after.stride == slot.stride
        }),
    decreases events.len(),
{
    if events.len() > 0 {
        first_usable_offer_wins(slot, events.drop_last());
    }
}

/// A usable offer is copied: before version 3 at once, from version 3 on when
/// all offers have been made. Usable are the two orders of red, green and blue
/// with a byte each, with and without alpha.
pub proof fn usable_offer_is_copied(
    version: u32,
    slot: Slot,
    format: u32,
    width: u32,
    height: u32,
    stride: u32,
)
    requires
        slot.format is None,
        !slot.requested,
        format == 0 || format == 1 || format == 0x3432_4258 || format == 0x3432_4241,
    ensures
        ({
            let offer = Event::Buffer { format, width, height, stride };
            let copy = Action::Copy {
                size: (stride * height) as u64,
                format,
                width,
                height,
                stride,
            };
            &&& action_after(version, slot, offer) == if version < 3 {
                copy
            } else {
                Action::Nothing
            }
            &&& action_after(version, slot_after(slot, offer), Event::BufferDone) == copy
        }),
{
}

/// A shot is finished once the copy was asked for and the buffer is filled, in
/// whatever else happens, and a shot that fails is over without being so.
pub proof fn filled_buffer_is_a_finished_shot(slot: Slot, version: u32, event: Event)
    requires
        slot.format is Some,
    ensures
        finished(slot_after(slot_after(slot, Event::Requested), Event::Ready)),
        finished(slot) ==> finished(slot_after(slot, event)),
        !finished(slot) && (event is Failed || event is BufferDone || event is Buffer) ==> !finished(
            slot_after(slot, event),
        ),
        event is Ready || event is Failed <==> action_after(version, slot, event) is Destroy,
{
}

/// Once a copy has been asked for, no event asks for it again.
pub proof fn copy_is_asked_for_once(version: u32, slot: Slot, events: Seq<Event>, event: Event)
    requires
        slot.requested,
    ensures
        !(action_after(version, slot_after_all(slot, events), event) is Copy),
    decreases events.len(),
{
    lemma_requested_stays(slot, events);
}

proof fn lemma_requested_stays(slot: Slot, events: Seq<Event>)
    requires
        slot.requested,
    ensures
        slot_after_all(slot, events).requested,
    decreases events.len(),
{
    if events.len() > 0 {
        lemma_requested_stays(slot, events.drop_last());
    }
}

/// A copy is only ever asked for in a usable format, and in the shape that was
/// offered with it.
pub proof fn copy_has_a_usable_format(version: u32, events: Seq<Event>, event: Event)
    ensures
        ({
            let before = slot_after_all(empty_slot(), events);
            action_after(version, before, event) matches Action::Copy {
                size,
                format,
                width,
                height,
                stride,
            } ==> {
                &&& supported(format)
                &&& size == stride * height
                &&& exists|i: int|
                    0 <= i <= events.len() && #[trigger] events.push(event)[i] == (Event::Buffer {
                        format,
                        width,
                        height,
                        stride,
                    })
            }
        }),
{
    let before = slot_after_all(empty_slot(), events);
    let all = events.push(event);
    lemma_format_was_offered(events);
    lemma_format_was_offered(all);
    assert(all.drop_last() =~= events);
    if action_after(version, before, event) is Copy {
        let after = slot_after(before, event);
        assert(slot_after_all(empty_slot(), all) == after);
        let i = choose|i: int| 0 <= i < all.len() && is_offer_of(#[trigger] all[i], after);
        assert(after.stride * after.height <= u64::MAX) by (nonlinear_arith)
            requires
                0 <= after.stride <= 0xffff_ffff,
                0 <= after.height <= 0xffff_ffff,
        ;
        assert(events.push(event)[i] == all[i]);
    }
}

/// The event offers just the shape that the slot holds.
spec fn is_offer_of(event: Event, slot: Slot) -> bool {
    slot.format is Some && event == (Event::Buffer {
        format: slot.format.unwrap(),
        width: slot.width,
        height: slot.height,
        stride: slot.stride,
    })
}

proof fn lemma_format_was_offered(events: Seq<Event>)
    ensures
        ({
            let slot = slot_after_all(empty_slot(), events);
            slot.format matches Some(format) ==> supported(format) && exists|i: int|
                0 <= i < events.len() && is_offer_of(#[trigger] events[i], slot)
        }),
    decreases events.len(),
{
    if events.len() > 0 {
        let before = slot_after_all(empty_slot(), events.drop_last());
        lemma_format_was_offered(events.drop_last());
        let slot = slot_after_all(empty_slot(), events);
        if slot.format is Some {
            if before.format is Some {
                let i = choose|i: int|
                    0 <= i < events.drop_last().len() && is_offer_of(
                        #[trigger] events.drop_last()[i],
                        before,
                    );
                assert(is_offer_of(events[i], slot));
            } else {
                assert(is_offer_of(events[events.len() - 1], slot));
            }
        }
    }
}

impl State {
    /// There is a slot for each output once the capture has begun.
    pub open spec fn wf(self) -> bool {
        self.slots@.len() <= self.connectors@.len()
    }

    /// A capture of `outputs` outputs that has not begun.
    pub fn new(manager_version: u32, outputs: usize) -> (r: Self)
        ensures
            r.wf(),
            r.manager_version == manager_version,
            r.connectors@.len() == outputs,
            forall|i: int| 0 <= i < outputs ==> #[trigger] r.connectors@[i] is None,
            r.slots@.len() == 0,
            r.pending == 0,
    {
        let mut connectors: Vec<Option<String>> = Vec::new();
        while connectors.len() < outputs
            invariant
                connectors@.len() <= outputs,
                forall|i: int| 0 <= i < connectors@.len() ==> #[trigger] connectors@[i] is None,
            decreases outputs - connectors@.len(),
        {
            connectors.push(None);
        }
        State { manager_version, connectors, slots: Vec::new(), pending: 0 }
    }

    /// Whether the connector names are worth waiting for. They only matter
    /// when there is more than one shot to pair with a monitor, and the round
    /// trip that delivers them is a full compositor turnaround.
    pub fn needs_names(&self) -> (r: bool)
        ensures
            r == (self.connectors@.len() > 1),
    {
        self.connectors.len() > 1
    }

    /// Output `index` has told its name.
    pub fn name_output(&mut self, index: usize, name: String)
        requires
            index < old(self).connectors@.len(),
        ensures
            final(self).connectors@ == old(self).connectors@.update(index as int, Some(name)),
            final(self).slots == old(self).slots,
            final(self).pending == old(self).pending,
            final(self).manager_version == old(self).manager_version,
    {
        self.connectors.set(index, Some(name));
    }

    /// A shot of the next output has been asked for.
    pub fn begin(&mut self)
        requires
            old(self).slots@.len() < old(self).connectors@.len(),
            old(self).pending < usize::MAX,
        ensures
            final(self).wf(),
            final(self).slots@ == old(self).slots@.push(empty_slot()),
            final(self).pending == old(self).pending + 1,
            final(self).connectors == old(self).connectors,
            final(self).manager_version == old(self).manager_version,
    {
        self.slots.push(
            Slot { format: None, width: 0, height: 0, stride: 0, requested: false, ready: false },
        );
        self.pending += 1;
    }

    /// Whether to wait for the compositor once more, after `turns` times.
    pub fn waits(&self, turns: u32, expired: bool) -> (r: bool)
        ensures
            r == (self.pending > 0 && turns < MAX_TURNS && !expired),
    {
        self.pending > 0 && turns < MAX_TURNS && !expired
    }

    /// What a slot asks for. Nothing until a usable format has been advertised,
    /// and nothing once the copy has been asked for.
    fn request_copy(slot: &Slot) -> (r: Action)
        ensures
            r == copy_of(*slot),
    {
        match slot.format {
            Some(format) if !slot.requested => {
                proof {
                    let (a, b) = (slot.stride as int, slot.height as int);
                    assert(0 <= a * b <= 0xffff_ffff * 0xffff_ffff) by (nonlinear_arith)
                        requires
                            0 <= a <= 0xffff_ffff,
                            0 <= b <= 0xffff_ffff,
                    ;
                }
                Action::Copy {
                    size: slot.stride as u64 * slot.height as u64,
                    format,
                    width: slot.width,
                    height: slot.height,
                    stride: slot.stride,
                }
            },
            _ => Action::Nothing,
        }
    }

    /// Take note of an event and say what to do about it.
    pub fn event(&mut self, index: usize, event: Event) -> (r: Action)
        requires
            old(self).wf(),
            index < old(self).slots@.len(),
        ensures
            final(self).wf(),
            final(self).slots@ == old(self).slots@.update(
                index as int,
                slot_after(old(self).slots@[index as int], event),
            ),
            final(self).pending == pending_after(old(self).pending as int, event),
            final(self).connectors == old(self).connectors,
            final(self).manager_version == old(self).manager_version,
            r == action_after(
                old(self).manager_version,
                old(self).slots@[index as int],
                event,
            ),
    {
        let mut slot: Slot = self.slots[index];
        let mut action = Action::Nothing;
        match event {
            Event::Buffer { format, width, height, stride } => {
                if slot.format.is_none() && is_supported(format) {
                    slot.format = Some(format);
                    slot.width = width;
                    slot.height = height;
                    slot.stride = stride;
                }
                if self.manager_version < 3 {
                    action = Self::request_copy(&slot);
                }
            },
            Event::BufferDone => {
                action = Self::request_copy(&slot);
            },
            Event::Requested => {
                slot.requested = true;
            },
            Event::Ready => {
                slot.ready = true;
                self.pending = self.pending.saturating_sub(1);
                action = Action::Destroy;
            },
            Event::Failed => {
                self.pending = self.pending.saturating_sub(1);
                action = Action::Destroy;
            },
        }
        self.slots.set(index, slot);
        action
    }

    /// The size of the buffer of a finished shot, if it is one.
    pub fn shot(&self, index: usize) -> (r: Option<u32>)
        requires
            index < self.slots@.len(),
            finished(self.slots@[index as int]) ==> self.slots@[index as int].stride
                * self.slots@[index as int].height <= u32::MAX,
        ensures
            ({
                let slot = self.slots@[index as int];
                match r {
                    Some(size) => finished(slot) && size == slot.stride * slot.height,
                    None => !finished(slot),
                }
            }),
    {
        let slot: Slot = self.slots[index];
        if slot.ready && slot.requested && slot.format.is_some() {
            Some(slot.stride * slot.height)
        } else {
            None
        }
    }

    /// The frame of a finished shot, with its pixels.
    pub fn frame<'a>(&self, index: usize, mapping: Mapping<'a>) -> (r: Option<Frame<'a>>)
        requires
            self.wf(),
            index < self.slots@.len(),
        ensures
            ({
                let slot = self.slots@[index as int];
                match r {
                    Some(frame) => {
                        &&& finished(slot)
                        &&& frame.wf()
                        &&& frame.connector == self.connectors@[index as int]
                        &&& frame.width == slot.width
                        &&& frame.height == slot.height
                        &&& frame.stride == slot.stride
                        &&& frame.channels == offsets_of(slot.format.unwrap())
                        &&& frame.data == Pixels::Mapped(mapping)
                    },
                    None => !finished(slot),
                }
            }),
    {
        let slot: Slot = self.slots[index];
        match slot.format {
            Some(format) if slot.ready && slot.requested => Some(
                Frame {
                    connector: self.connectors[index].clone(),
                    width: slot.width,
                    height: slot.height,
                    stride: slot.stride,
                    channels: channel_offsets(format),
                    data: Pixels::Mapped(mapping),
                },
            ),
            _ => None,
        }
    }
}

} // verus!
