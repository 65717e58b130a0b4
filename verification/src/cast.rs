//! The editor core: an immutable backing buffer of the original file's
//! bytes, the decoded header, and the overlay of pending edits; windowed
//! reads and saves merge the two.

use crate::errors::CastError;
use crate::event::{Event, EventData, EventDataModel, EventModel};
use crate::header::{sp_parse_header, Header, HeaderModel};
use crate::overlay::{
    empty_chain, lemma_chain_at_ensure, lemma_chain_at_found, lemma_set_chain_update,
    overlay_sorted, spec_chain_at, spec_ensure, sp_set_chain, ChainModel, ModificationChain,
    Overlay,
};
use crate::textutil::find_byte;
use crate::time::time_scaled_val;
use vstd::prelude::*;

verus! {

/// An event paired with the byte offset it is anchored to: the join key
/// between overlay and backing bytes.
#[derive(Debug)]
pub struct EventPositioned {
    pub event: Event,
    pub byte_location: usize,
}

/// The mathematical image of an [`EventPositioned`].
#[verifier::ext_equal]
pub struct EventPositionedModel {
    pub event: EventModel,
    pub byte_location: int,
}

impl View for EventPositioned {
    type V = EventPositionedModel;

    open spec fn view(&self) -> EventPositionedModel {
        EventPositionedModel { event: self.event@, byte_location: self.byte_location as int }
    }
}

impl EventPositioned {
    /// An owned copy.
    pub fn duplicate(&self) -> (r: EventPositioned)
        ensures
            r@ == self@,
    {
        EventPositioned { event: self.event.duplicate(), byte_location: self.byte_location }
    }
}

/// The unit of mutation against one positioned event.
#[derive(Debug)]
pub enum ModificationAction {
    /// Insert an event into the chain at the addressed offset.
    Addition(Event),
    /// Remove the addressed insertion, or toggle the original line's
    /// deletion when the order points past the chain.
    Deletion,
    /// Replace only the data of the addressed insertion, keeping its time.
    ModifyData(EventData),
}

/// The mathematical image of a [`ModificationAction`].
#[verifier::ext_equal]
pub enum ActionModel {
    Addition(EventModel),
    Deletion,
    ModifyData(EventDataModel),
}

impl View for ModificationAction {
    type V = ActionModel;

    open spec fn view(&self) -> ActionModel {
        match self {
            ModificationAction::Addition(e) => ActionModel::Addition(e@),
            ModificationAction::Deletion => ActionModel::Deletion,
            ModificationAction::ModifyData(d) => ActionModel::ModifyData(d@),
        }
    }
}

/// Composite operations, each a short sequence of primitive actions.
#[derive(Debug)]
pub enum AdvancedModificationAction {
    /// Replace the addressed event: a deletion there, then an addition of
    /// the edited event anchored at the next event.
    Modify(Event),
    /// Exchange the data (not the times) of the addressed event and the
    /// carried one, by two data modifications.
    Swap(EventPositioned, usize),
}

/// An order index clamped into `[0, len]`.
pub open spec fn sp_clamp(order: int, len: int) -> int {
    if order > len {
        len
    } else {
        order
    }
}

/// What one primitive action does: the overlay afterwards and the result
/// handed back. A chain is created at the addressed offset even when the
/// action itself is then refused.
pub open spec fn sp_action(
    ov: Seq<(int, ChainModel)>,
    act: ActionModel,
    order: int,
    cur: EventPositionedModel,
    prev: Option<EventPositionedModel>,
) -> (Seq<(int, ChainModel)>, Result<(), CastError>) {
    let loc = cur.byte_location;
    let ov1 = spec_ensure(ov, loc);
    let chain = spec_chain_at(ov1, loc)->Some_0;
    let k = sp_clamp(order, chain.mods.len() as int);
    match act {
        ActionModel::Addition(em) => match prev {
            None => (ov1, Err(CastError::UnverifiableTime)),
            Some(pm) => {
                if time_scaled_val(pm.event.time) < time_scaled_val(em.time) && time_scaled_val(
                    em.time,
                ) < time_scaled_val(cur.event.time) {
                    (
                        sp_set_chain(
                            ov1,
                            loc,
                            ChainModel {
                                mods: chain.mods.insert(k, em),
                                original_deleted: chain.original_deleted,
                            },
                        ),
                        Ok(()),
                    )
                } else {
                    (ov1, Err(CastError::TimingError))
                }
            },
        },
        ActionModel::Deletion => {
            if k < chain.mods.len() {
                (
                    sp_set_chain(
                        ov1,
                        loc,
                        ChainModel {
                            mods: chain.mods.remove(k),
                            original_deleted: chain.original_deleted,
                        },
                    ),
                    Ok(()),
                )
            } else {
                (
                    sp_set_chain(
                        ov1,
                        loc,
                        ChainModel { mods: chain.mods, original_deleted: !chain.original_deleted },
                    ),
                    Ok(()),
                )
            }
        },
        ActionModel::ModifyData(dm) => {
            if k < chain.mods.len() {
                (
                    sp_set_chain(
                        ov1,
                        loc,
                        ChainModel {
                            mods: chain.mods.update(
                                k,
                                EventModel { time: chain.mods[k].time, data: dm },
                            ),
                            original_deleted: chain.original_deleted,
                        },
                    ),
                    Ok(()),
                )
            } else {
                (ov1, Err(CastError::ModificationError))
            }
        },
    }
}

/// The first index in the chain whose event time equals `t` exactly, or the
/// chain's length.
pub open spec fn sp_first_time_match(mods: Seq<EventModel>, t: int, i: int) -> int
    decreases mods.len() - i,
{
    if !(0 <= i < mods.len()) {
        mods.len() as int
    } else if time_scaled_val(mods[i].time) == t {
        i
    } else {
        sp_first_time_match(mods, t, i + 1)
    }
}

/// The order index addressing a base event at `loc`: zero when no chain
/// exists, else the first insertion with the same time, else the chain's
/// length (the sentinel addressing the original line).
pub open spec fn sp_get_order(ov: Seq<(int, ChainModel)>, loc: int, t: int) -> int {
    match spec_chain_at(ov, loc) {
        None => 0,
        Some(c) => sp_first_time_match(c.mods, t, 0),
    }
}

/// There is a line terminator somewhere in the bytes.
pub open spec fn has_newline(data: Seq<u8>) -> bool {
    exists|i: int| 0 <= i < data.len() && data[i] == 0x0a
}

/// The editor's whole state: the original bytes (never changed), the header
/// decoded from the first line, and the pending edits.
#[derive(Debug)]
pub struct CastFile {
    data: Vec<u8>,
    pub header: Header,
    modifications: Overlay,
}

/// The mathematical image of a [`CastFile`].
#[verifier::ext_equal]
pub struct CastFileModel {
    pub data: Seq<u8>,
    pub header: HeaderModel,
    pub overlay: Seq<(int, ChainModel)>,
}

impl View for CastFile {
    type V = CastFileModel;

    closed spec fn view(&self) -> CastFileModel {
        CastFileModel { data: self.data@, header: self.header@, overlay: self.modifications@ }
    }
}

impl CastFile {
    /// The state every constructor establishes and every method keeps: the
    /// overlay is sorted by offset and the backing bytes hold a header line.
    pub open spec fn wf(self) -> bool {
        &&& overlay_sorted(self@.overlay)
        &&& has_newline(self@.data)
    }

    /// The number of bytes in the backing buffer.
    pub fn file_size(&self) -> (r: usize)
        ensures
            r == self@.data.len(),
    {
        self.data.len()
    }

    /// Open a recording from its bytes: find the first line terminator,
    /// decode the header before it, and accept only version 2.
    ///
    /// Fails with a deserialization error when no line terminator exists or
    /// the header does not parse, and with a version error otherwise than on
    /// version 2.
    pub fn new(data: Vec<u8>) -> (r: Result<CastFile, CastError>)
        ensures
            match r {
                Ok(c) => {
                    &&& c.wf()
                    &&& c@.data == data@
                    &&& c@.overlay == Seq::<(int, ChainModel)>::empty()
                    &&& find_byte(data@, 0x0a, 0) < data@.len()
                    &&& sp_parse_header(data@.subrange(0, find_byte(data@, 0x0a, 0))) == Some(
                        c@.header,
                    )
                    &&& c@.header.version == 2
                    &&& crate::header::header_palette_ok(c@.header)
                },
                Err(CastError::DeserializationError) => find_byte(data@, 0x0a, 0)
                    == data@.len() || sp_parse_header(
                    data@.subrange(0, find_byte(data@, 0x0a, 0)),
                ) is None,
                Err(CastError::InvalidVersion) => sp_parse_header(
                    data@.subrange(0, find_byte(data@, 0x0a, 0)),
                ) matches Some(h) && h.version != 2,
                Err(_) => false,
            },
    {
        proof {
            crate::textutil::lemma_find_byte_props(data@, 0x0a, 0);
        }
        let header_end = crate::textutil::find_byte_from(data.as_slice(), 0x0a, 0);
        if header_end == data.len() {
            return Err(CastError::DeserializationError);
        }
        let header_bytes = vstd::slice::slice_subrange(data.as_slice(), 0, header_end);
        let header = match crate::header::parse_header(header_bytes) {
            Ok(h) => h,
            Err(e) => {
                return Err(e);
            },
        };
        if header.version != 2 {
            return Err(CastError::InvalidVersion);
        }
        let c = CastFile { data, header, modifications: Overlay::new() };
        proof {
            assert(c@.data[header_end as int] == 0x0a);
            assert(has_newline(c@.data));
            crate::header::lemma_parse_header_palette_ok(
                c@.data.subrange(0, header_end as int),
            );
        }
        Ok(c)
    }

    /// Apply one primitive edit against the addressed positioned event.
    ///
    /// An addition needs the previous event for context and succeeds exactly
    /// when the new time lies strictly between the previous and the current
    /// event's times. A deletion with an order inside the chain removes that
    /// insertion; past the chain it toggles the original line's deletion. A
    /// data modification needs an existing insertion at the order.
    pub fn action(
        &mut self,
        action: ModificationAction,
        order: usize,
        current_event: &EventPositioned,
        previous_event: Option<&EventPositioned>,
    ) -> (r: Result<(), CastError>)
        requires
            old(self).wf(),
        ensures
            final(self).wf(),
            final(self)@.data == old(self)@.data,
            final(self)@.header == old(self)@.header,
            ({
                let (ov2, res) = sp_action(
                    old(self)@.overlay,
                    action@,
                    order as int,
                    current_event@,
                    match previous_event {
                        Some(p) => Some(p@),
                        None => None,
                    },
                );
                final(self)@.overlay == ov2 && r == res
            }),
            // an addition is accepted exactly when the context exists and
            // the new time lies strictly between its neighbors
            (action@ matches ActionModel::Addition(em) ==> (r is Ok <==> (previous_event
                matches Some(p) && time_scaled_val(p@.event.time) < time_scaled_val(em.time)
                && time_scaled_val(em.time) < time_scaled_val(current_event@.event.time)))),
    {
        let loc = current_event.byte_location;
        let ghost ov0 = self@.overlay;
        let idx = self.modifications.ensure(loc);
        proof {
            lemma_chain_at_found(self.modifications@, loc as int, idx as int);
            lemma_chain_at_ensure(ov0, loc as int);
        }
        let chain_len = self.modifications.chain_at_idx(idx).len();
        let k = if order > chain_len {
            chain_len
        } else {
            order
        };
        let ghost ov1 = self@.overlay;
        proof {
            assert(forall|j: int| 0 <= j < idx ==> #[trigger] ov1[j].0 != loc) by {
                assert(forall|j: int| 0 <= j < idx ==> #[trigger] ov1[j].0 < loc);
            }
        }
        match action {
            ModificationAction::Addition(event) => match previous_event {
                Some(prev) => {
                    if prev.event.time.lt(&event.time) && event.time.lt(&current_event.event.time)
                    {
                        let ghost em = event@;
                        let mut chain = self.modifications.chain_copy(idx);
                        chain.insert_event(k, event);
                        proof {
                            lemma_set_chain_update(ov1, loc as int, idx as int, chain@);
                        }
                        self.modifications.replace_chain(idx, chain);
                        Ok(())
                    } else {
                        Err(CastError::TimingError)
                    }
                },
                None => Err(CastError::UnverifiableTime),
            },
            ModificationAction::Deletion => {
                let mut chain = self.modifications.chain_copy(idx);
                if k < chain_len {
                    chain.remove_event(k);
                } else {
                    chain.toggle_original();
                }
                proof {
                    lemma_set_chain_update(ov1, loc as int, idx as int, chain@);
                }
                self.modifications.replace_chain(idx, chain);
                Ok(())
            },
            ModificationAction::ModifyData(event_data) => {
                if k < chain_len {
                    let mut chain = self.modifications.chain_copy(idx);
                    chain.set_data(k, event_data);
                    proof {
                        lemma_set_chain_update(ov1, loc as int, idx as int, chain@);
                    }
                    self.modifications.replace_chain(idx, chain);
                    Ok(())
                } else {
                    Err(CastError::ModificationError)
                }
            },
        }
    }

    /// The order index addressing a base event known to come from the
    /// original file at `byte_location`: looked up by exact time equality;
    /// no chain gives zero, no match gives the chain's length.
    pub fn get_order(&self, byte_location: usize, base_event: &Event) -> (r: usize)
        requires
            self.wf(),
        ensures
            r as int == sp_get_order(
                self@.overlay,
                byte_location as int,
                time_scaled_val(base_event@.time),
            ),
    {
        match self.modifications.get(byte_location) {
            None => 0,
            Some(chain) => {
                let n = chain.len();
                let mut i: usize = 0;
                let ghost mods = spec_chain_at(self@.overlay, byte_location as int)->Some_0.mods;
                let ghost t = time_scaled_val(base_event@.time);
                while i < n
                    invariant
                        0 <= i <= n,
                        n == mods.len(),
                        spec_chain_at(self@.overlay, byte_location as int) matches Some(c) && c.mods
                            == mods,
                        t == time_scaled_val(base_event@.time),
                        sp_first_time_match(mods, t, 0) == sp_first_time_match(mods, t, i as int),
                        chain@.mods == mods,
                    decreases n - i,
                {
                    if chain.get_event(i).time.eq_value(&base_event.time) {
                        return i;
                    }
                    i += 1;
                }
                n
            },
        }
    }

    /// Apply one composite edit. `Modify` needs both neighbors: it deletes
    /// at the addressed event and re-adds the edited event at the front of
    /// the next event's chain, checking its time there. `Swap` exchanges the
    /// data of the addressed and the carried events as two data
    /// modifications, reporting the first one that is refused.
    ///
    /// A failing later step does not roll back an earlier one: these are
    /// sequences of primitive actions, not transactions.
    pub fn advanced_action(
        &mut self,
        action: AdvancedModificationAction,
        order: usize,
        current_event: &EventPositioned,
        previous_event: Option<&EventPositioned>,
        next_event: Option<&EventPositioned>,
    ) -> (r: Result<(), CastError>)
        requires
            old(self).wf(),
        ensures
            final(self).wf(),
            final(self)@.data == old(self)@.data,
            final(self)@.header == old(self)@.header,
            ({
                let (ov2, res) = sp_advanced_action(
                    old(self)@.overlay,
                    action@,
                    order as int,
                    current_event@,
                    match previous_event {
                        Some(p) => Some(p@),
                        None => None,
                    },
                    match next_event {
                        Some(p) => Some(p@),
                        None => None,
                    },
                );
                final(self)@.overlay == ov2 && r == res
            }),
    {
        let loc = current_event.byte_location;
        let ghost ov0 = self@.overlay;
        let idx = self.modifications.ensure(loc);
        proof {
            lemma_chain_at_found(self.modifications@, loc as int, idx as int);
            lemma_chain_at_ensure(ov0, loc as int);
        }
        let chain_len = self.modifications.chain_at_idx(idx).len();
        let k = if order > chain_len {
            chain_len
        } else {
            order
        };
        match action {
            AdvancedModificationAction::Modify(event) => match next_event {
                Some(next) => match previous_event {
                    Some(prev) => {
                        match self.action(ModificationAction::Deletion, k, current_event, None) {
                            Ok(()) => {},
                            Err(e) => {
                                return Err(e);
                            },
                        }
                        self.action(ModificationAction::Addition(event), 0, next, Some(prev))
                    },
                    None => Err(CastError::UnverifiableTime),
                },
                None => Err(CastError::UnverifiableTime),
            },
            AdvancedModificationAction::Swap(target_event, target_order) => {
                let current_data = current_event.event.data.duplicate();
                let targeted_data = target_event.event.data.duplicate();
                match self.action(
                    ModificationAction::ModifyData(targeted_data),
                    k,
                    current_event,
                    None,
                ) {
                    Ok(()) => {},
                    Err(e) => {
                        return Err(e);
                    },
                }
                self.action(
                    ModificationAction::ModifyData(current_data),
                    target_order,
                    &target_event,
                    None,
                )
            },
        }
    }
}

/// What one composite edit does, in terms of the primitive actions it runs.
pub open spec fn sp_advanced_action(
    ov: Seq<(int, ChainModel)>,
    act: AdvancedActionModel,
    order: int,
    cur: EventPositionedModel,
    prev: Option<EventPositionedModel>,
    next: Option<EventPositionedModel>,
) -> (Seq<(int, ChainModel)>, Result<(), CastError>) {
    let loc = cur.byte_location;
    let ov1 = spec_ensure(ov, loc);
    let chain = spec_chain_at(ov1, loc)->Some_0;
    let k = sp_clamp(order, chain.mods.len() as int);
    match act {
        AdvancedActionModel::Modify(em) => match next {
            None => (ov1, Err(CastError::UnverifiableTime)),
            Some(nx) => match prev {
                None => (ov1, Err(CastError::UnverifiableTime)),
                Some(pm) => {
                    let (ov2, _) = sp_action(ov1, ActionModel::Deletion, k, cur, None);
                    sp_action(ov2, ActionModel::Addition(em), 0, nx, Some(pm))
                },
            },
        },
        AdvancedActionModel::Swap(target, target_order) => {
            let (ov2, r1) = sp_action(
                ov1,
                ActionModel::ModifyData(target.event.data),
                k,
                cur,
                None,
            );
            match r1 {
                Err(e) => (ov2, Err(e)),
                Ok(()) => sp_action(
                    ov2,
                    ActionModel::ModifyData(cur.event.data),
                    target_order,
                    target,
                    None,
                ),
            }
        },
    }
}

/// The views of a run of positioned events.
pub open spec fn evs_views(v: Seq<EventPositioned>) -> Seq<EventPositionedModel> {
    v.map_values(|ep: EventPositioned| ep@)
}

proof fn lemma_evs_views_concat(a: Seq<EventPositioned>, b: Seq<EventPositioned>)
    ensures
        evs_views(a + b) == evs_views(a) + evs_views(b),
{
    assert(evs_views(a + b) =~= evs_views(a) + evs_views(b));
}

/// Position just after the first line terminator at or past `start`, or the
/// buffer's length when none follows.
pub open spec fn sp_next_line_start(data: Seq<u8>, start: int) -> int {
    let f = find_byte(data, 0x0a, start);
    if 0 <= f < data.len() {
        f + 1
    } else {
        data.len() as int
    }
}

/// Find the next line start (exec mirror of [`sp_next_line_start`]).
pub fn find_next_newline(buffer: &[u8], start: usize) -> (r: usize)
    requires
        start <= buffer@.len(),
    ensures
        r as int == sp_next_line_start(buffer@, start as int),
        start <= r <= buffer@.len(),
{
    proof {
        crate::textutil::lemma_find_byte_props(buffer@, 0x0a, start as int);
    }
    let f = crate::textutil::find_byte_from(buffer, 0x0a, start);
    if f < buffer.len() {
        f + 1
    } else {
        f
    }
}

/// The events parsed out of a raw byte window, each anchored at its line's
/// start offset (`base` plus the line's offset in the window): lines split
/// at terminators, trimmed, empty lines skipped, and lines that fail to
/// parse skipped rather than failing the read.
pub open spec fn sp_parse_events(sl: Seq<u8>, base: int) -> Seq<EventPositionedModel>
    decreases sl.len(),
{
    if sl.len() == 0 {
        Seq::empty()
    } else {
        let nl0 = find_byte(sl, 0x0a, 0);
        let nl = if 0 <= nl0 <= sl.len() {
            nl0
        } else {
            sl.len() as int
        };
        let t = crate::textutil::trim_ws(sl.subrange(0, nl));
        let first = if t.len() == 0 {
            Seq::<EventPositionedModel>::empty()
        } else {
            match crate::event::spec_parse_event(t) {
                Ok(em) => seq![EventPositionedModel { event: em, byte_location: base }],
                Err(_) => Seq::empty(),
            }
        };
        let rest = if nl + 1 <= sl.len() {
            sp_parse_events(sl.subrange(nl + 1, sl.len() as int), base + nl + 1)
        } else {
            Seq::empty()
        };
        first + rest
    }
}

/// Parse the event lines in a byte window starting at absolute offset
/// `base_position`.
pub fn parse_events(slice: &[u8], base_position: usize) -> (r: Vec<EventPositioned>)
    requires
        base_position + slice@.len() <= usize::MAX,
    ensures
        evs_views(r@) == sp_parse_events(slice@, base_position as int),
{
    let n: usize = slice.len();
    let mut out: Vec<EventPositioned> = Vec::new();
    let mut pos: usize = 0;
    proof {
        assert(slice@.subrange(0, n as int) =~= slice@);
        assert(evs_views(out@) =~= Seq::<EventPositionedModel>::empty());
        assert(evs_views(out@) + sp_parse_events(slice@, base_position as int) =~= sp_parse_events(
            slice@,
            base_position as int,
        ));
    }
    while pos < n
        invariant
            0 <= pos <= n,
            n == slice@.len(),
            base_position + n <= usize::MAX,
            evs_views(out@) + sp_parse_events(
                slice@.subrange(pos as int, n as int),
                base_position + pos,
            ) == sp_parse_events(slice@, base_position as int),
        decreases n - pos,
    {
        let ghost sub = slice@.subrange(pos as int, n as int);
        proof {
            crate::textutil::lemma_find_byte_props(slice@, 0x0a, pos as int);
            crate::textutil::lemma_find_byte_shift_generic(slice@, 0x0a, pos as int);
        }
        let nl = crate::textutil::find_byte_from(slice, 0x0a, pos);
        proof {
            assert(find_byte(sub, 0x0a, 0) == nl - pos);
            assert(sub.subrange(0, nl - pos) =~= slice@.subrange(pos as int, nl as int));
            if nl < n {
                assert(sub.subrange(nl - pos + 1, sub.len() as int) =~= slice@.subrange(
                    nl + 1,
                    n as int,
                ));
            }
        }
        let line = vstd::slice::slice_subrange(slice, pos, nl);
        let t = crate::textutil::trim_slice(line);
        let ghost before = out@;
        let ghost tp = crate::textutil::trim_ws(sub.subrange(0, nl - pos));
        let ghost firstp = if tp.len() == 0 {
            Seq::<EventPositionedModel>::empty()
        } else {
            match crate::event::spec_parse_event(tp) {
                Ok(em) => seq![
                    EventPositionedModel { event: em, byte_location: base_position + pos as int },
                ],
                Err(_) => Seq::<EventPositionedModel>::empty(),
            }
        };
        let ghost restp = if nl < n {
            sp_parse_events(slice@.subrange(nl + 1, n as int), base_position + nl + 1)
        } else {
            Seq::<EventPositionedModel>::empty()
        };
        proof {
            assert(t@ == tp);
            assert(sp_parse_events(sub, base_position + pos) == firstp + restp);
        }
        if t.len() > 0 {
            match crate::event::parse_event_line(t) {
                Ok(ev) => {
                    out.push(EventPositioned { event: ev, byte_location: base_position + pos });
                    proof {
                        assert(evs_views(out@) =~= evs_views(before) + firstp);
                    }
                },
                Err(_) => {
                    proof {
                        assert(evs_views(out@) =~= evs_views(before) + firstp);
                    }
                },
            }
        } else {
            proof {
                assert(evs_views(out@) =~= evs_views(before) + firstp);
            }
        }
        proof {
            assert(evs_views(before) + (firstp + restp) =~= (evs_views(before) + firstp) + restp);
            assert(evs_views(out@) + restp == sp_parse_events(slice@, base_position as int));
        }
        if nl == n {
            pos = n;
            proof {
                assert(slice@.subrange(n as int, n as int) =~= Seq::<u8>::empty());
                assert(evs_views(out@) + sp_parse_events(
                    slice@.subrange(n as int, n as int),
                    base_position + n,
                ) =~= evs_views(out@) + restp);
            }
        } else {
            pos = nl + 1;
        }
    }
    proof {
        assert(slice@.subrange(n as int, n as int) =~= Seq::<u8>::empty());
        assert(sp_parse_events(Seq::<u8>::empty(), base_position + n) =~= Seq::<
            EventPositionedModel,
        >::empty());
        assert(evs_views(out@) + Seq::<EventPositionedModel>::empty() =~= evs_views(out@));
    }
    out
}

/// The line start just after the last line terminator strictly before `hi`,
/// if any terminator lies there.
pub open spec fn sp_rfind_line_start(data: Seq<u8>, hi: int) -> Option<int>
    decreases hi,
{
    if hi <= 0 {
        None
    } else if hi <= data.len() && data[hi - 1] == 0x0a {
        Some(hi)
    } else {
        sp_rfind_line_start(data, hi - 1)
    }
}

/// Where a read window begins for a clamped byte position: just after the
/// next line terminator, or just after the last one before the position, or
/// nowhere when the bytes hold no terminator at all.
pub open spec fn sp_window_start(data: Seq<u8>, bp: int) -> Option<int> {
    let f = find_byte(data, 0x0a, bp);
    if 0 <= f < data.len() {
        Some(f + 1)
    } else {
        sp_rfind_line_start(data, bp)
    }
}

/// Where a read window ends: after the `n`-th line terminator from `cur`,
/// or at the end of the bytes when fewer remain (and at `cur` itself for a
/// zero-line request).
pub open spec fn sp_window_end(data: Seq<u8>, cur: int, n: nat) -> int
    decreases n,
{
    if n == 0 {
        cur
    } else {
        let f = find_byte(data, 0x0a, cur);
        if !(0 <= f < data.len()) {
            data.len() as int
        } else if n == 1 {
            f + 1
        } else {
            sp_window_end(data, f + 1, (n - 1) as nat)
        }
    }
}

/// The merge of overlay entries with the backing bytes over the window
/// `[cur, end)`: each entry's insertions come first at their anchor, the
/// anchored original line is skipped when marked deleted, and raw bytes
/// between anchors are parsed as event lines.
pub open spec fn sp_merge(
    data: Seq<u8>,
    entries: Seq<(int, ChainModel)>,
    cur: int,
    end: int,
) -> Seq<EventPositionedModel>
    decreases entries.len(), end - cur,
{
    if cur >= end || !(0 <= cur && end <= data.len()) {
        Seq::empty()
    } else if entries.len() == 0 {
        sp_parse_events(data.subrange(cur, end), cur)
    } else {
        let p = entries[0].0;
        let chain = entries[0].1;
        if p < cur {
            sp_merge(data, entries.drop_first(), cur, end)
        } else if p == cur {
            let inserted = chain.mods.map_values(
                |em: EventModel| EventPositionedModel { event: em, byte_location: p },
            );
            let cur2 = if chain.original_deleted {
                sp_next_line_start(data, cur)
            } else {
                cur
            };
            let cur3 = if cur2 > end {
                end
            } else {
                cur2
            };
            inserted + sp_merge(data, entries.drop_first(), cur3, end)
        } else {
            let pe = if p < end {
                p
            } else {
                end
            };
            sp_parse_events(data.subrange(cur, pe), cur) + sp_merge(data, entries, pe, end)
        }
    }
}

/// What a windowed read returns: the merge over the window that the clamped
/// byte position selects, or nothing when the bytes hold no line terminator.
pub open spec fn sp_get_lines(
    data: Seq<u8>,
    entries: Seq<(int, ChainModel)>,
    pos: int,
    n: nat,
) -> Option<Seq<EventPositionedModel>> {
    let bp = if pos > data.len() {
        data.len() as int
    } else {
        pos
    };
    match sp_window_start(data, bp) {
        None => None,
        Some(cur) => Some(sp_merge(data, entries, cur, sp_window_end(data, cur, n))),
    }
}

/// A terminator before `hi` makes the backward search succeed.
proof fn lemma_rfind_some(data: Seq<u8>, hi: int, w: int)
    requires
        0 <= w < hi <= data.len(),
        data[w] == 0x0a,
    ensures
        sp_rfind_line_start(data, hi) is Some,
        sp_rfind_line_start(data, hi) matches Some(c) && w + 1 <= c <= hi,
    decreases hi,
{
    if data[hi - 1] == 0x0a {
    } else {
        lemma_rfind_some(data, hi - 1, w);
    }
}

/// With a terminator anywhere in the bytes, every read window exists.
pub proof fn lemma_window_start_total(data: Seq<u8>, bp: int)
    requires
        has_newline(data),
        0 <= bp <= data.len(),
    ensures
        sp_window_start(data, bp) is Some,
        sp_window_start(data, bp) matches Some(c) && 0 <= c <= data.len(),
{
    crate::textutil::lemma_find_byte_props(data, 0x0a, bp);
    let f = find_byte(data, 0x0a, bp);
    if f < data.len() {
    } else {
        let w = choose|i: int| 0 <= i < data.len() && data[i] == 0x0a;
        assert(w < bp);
        lemma_rfind_some(data, bp, w);
    }
}

/// Rfind an earlier line start (exec mirror of `sp_rfind_line_start`).
fn rfind_line_start(data: &[u8], hi: usize) -> (r: Option<usize>)
    requires
        hi <= data@.len(),
    ensures
        match r {
            Some(c) => sp_rfind_line_start(data@, hi as int) == Some(c as int) && c <= hi,
            None => sp_rfind_line_start(data@, hi as int) is None,
        },
{
    let mut j: usize = hi;
    loop
        invariant
            0 <= j <= hi <= data@.len(),
            sp_rfind_line_start(data@, hi as int) == sp_rfind_line_start(data@, j as int),
        decreases j,
    {
        if j == 0 {
            return None;
        }
        if data[j - 1] == 0x0a {
            return Some(j);
        }
        j -= 1;
    }
}

/// Find a window's end (exec mirror of `sp_window_end`).
fn window_end(data: &[u8], cur: usize, n: usize) -> (r: usize)
    requires
        cur <= data@.len(),
    ensures
        r as int == sp_window_end(data@, cur as int, n as nat),
        cur <= r <= data@.len(),
{
    let len: usize = data.len();
    let mut c: usize = cur;
    let mut k: usize = n;
    loop
        invariant
            cur <= c <= len,
            len == data@.len(),
            k <= n,
            sp_window_end(data@, cur as int, n as nat) == sp_window_end(data@, c as int, k as nat),
        decreases k,
    {
        if k == 0 {
            return c;
        }
        proof {
            crate::textutil::lemma_find_byte_props(data@, 0x0a, c as int);
        }
        let f = crate::textutil::find_byte_from(data, 0x0a, c);
        if f == len {
            return len;
        }
        if k == 1 {
            return f + 1;
        }
        c = f + 1;
        k -= 1;
    }
}

impl CastFile {
    /// Read up to `n` event lines from the window that the byte position
    /// `pos` (clamped to the file size) selects, merged with the overlay.
    ///
    /// The window starts after the first line terminator at or past the
    /// position — so position zero always starts at the first event line,
    /// the header excluded — or, when none follows, after the last
    /// terminator before it. The read fails only when the bytes hold no
    /// terminator at all, which a well-formed editor state rules out.
    pub fn get_lines(&self, pos: usize, n: usize) -> (r: Result<Vec<EventPositioned>, CastError>)
        requires
            self.wf(),
        ensures
            r is Ok,
            match r {
                Ok(v) => sp_get_lines(self@.data, self@.overlay, pos as int, n as nat) == Some(
                    evs_views(v@),
                ),
                Err(_) => false,
            },
    {
        let size = self.data.len();
        let bp = if pos > size {
            size
        } else {
            pos
        };
        proof {
            lemma_window_start_total(self@.data, bp as int);
            crate::textutil::lemma_find_byte_props(self@.data, 0x0a, bp as int);
        }
        let f = crate::textutil::find_byte_from(self.data.as_slice(), 0x0a, bp);
        let cur0: usize;
        if f < size {
            cur0 = f + 1;
        } else {
            cur0 = match rfind_line_start(self.data.as_slice(), bp) {
                Some(c) => c,
                None => {
                    proof {
                        assert(false);
                    }
                    return Err(CastError::DeserializationError);
                },
            };
        }
        let end = window_end(self.data.as_slice(), cur0, n);
        let events = self.merge_window(cur0, end);
        Ok(events)
    }

    /// Merge the overlay with the backing bytes over `[cur0, end)`.
    fn merge_window(&self, cur0: usize, end: usize) -> (r: Vec<EventPositioned>)
        requires
            self.wf(),
            cur0 <= end <= self@.data.len(),
        ensures
            evs_views(r@) == sp_merge(self@.data, self@.overlay, cur0 as int, end as int),
    {
        let ghost entries = self@.overlay;
        let ghost data = self@.data;
        let total = self.modifications.len();
        let mut events: Vec<EventPositioned> = Vec::new();
        let mut curp: usize = cur0;
        let mut idx: usize = 0;
        proof {
            assert(entries.skip(0) =~= entries);
            assert(evs_views(events@) + sp_merge(data, entries, cur0 as int, end as int)
                =~= sp_merge(data, entries, cur0 as int, end as int));
        }
        while curp < end
            invariant
                self.wf(),
                data == self@.data,
                entries == self@.overlay,
                total == entries.len(),
                idx <= total,
                cur0 <= curp <= data.len(),
                end <= data.len(),
                evs_views(events@) + sp_merge(data, entries.skip(idx as int), curp as int, end as int)
                    == sp_merge(data, entries, cur0 as int, end as int),
            decreases total - idx, end - curp,
        {
            let ghost rem = entries.skip(idx as int);
            let ghost pre = evs_views(events@);
            if idx < total {
                proof {
                    assert(rem[0] == entries[idx as int]);
                    assert(rem.drop_first() =~= entries.skip(idx as int + 1));
                }
                let p = self.modifications.key_at(idx);
                if p == curp {
                    let chain = self.modifications.chain_at_idx(idx);
                    let ghost inserted = rem[0].1.mods.map_values(
                        |em: EventModel| EventPositionedModel {
                            event: em,
                            byte_location: p as int,
                        },
                    );
                    let m = chain.len();
                    let mut ins: Vec<EventPositioned> = Vec::new();
                    let mut j: usize = 0;
                    while j < m
                        invariant
                            0 <= j <= m,
                            m == chain@.mods.len(),
                            inserted == chain@.mods.map_values(
                                |em: EventModel| EventPositionedModel {
                                    event: em,
                                    byte_location: p as int,
                                },
                            ),
                            ins@.len() == j,
                            forall|q: int| 0 <= q < j ==> #[trigger] ins@[q]@ == inserted[q],
                        decreases m - j,
                    {
                        ins.push(
                            EventPositioned {
                                event: chain.get_event(j).duplicate(),
                                byte_location: p,
                            },
                        );
                        j += 1;
                    }
                    events.append(&mut ins);
                    proof {
                        assert(evs_views(events@) =~= pre + inserted);
                    }
                    if chain.original_deleted() {
                        curp = find_next_newline(self.data.as_slice(), curp);
                    }
                    idx += 1;
                    proof {
                        let cur3 = if curp as int > end as int {
                            end as int
                        } else {
                            curp as int
                        };
                        assert(sp_merge(data, rem.drop_first(), cur3, end as int) == sp_merge(
                            data,
                            rem.drop_first(),
                            curp as int,
                            end as int,
                        ));
                        assert(pre + (inserted + sp_merge(
                            data,
                            rem.drop_first(),
                            cur3,
                            end as int,
                        )) =~= (pre + inserted) + sp_merge(
                            data,
                            rem.drop_first(),
                            cur3,
                            end as int,
                        ));
                    }
                } else if p < curp {
                    idx += 1;
                } else {
                    let pe = if p < end {
                        p
                    } else {
                        end
                    };
                    let seg = parse_events(
                        vstd::slice::slice_subrange(self.data.as_slice(), curp, pe),
                        curp,
                    );
                    let ghost segv = evs_views(seg@);
                    let ghost segp = sp_parse_events(data.subrange(curp as int, pe as int), curp as int);
                    let mut seg2 = seg;
                    events.append(&mut seg2);
                    proof {
                        assert(evs_views(events@) =~= pre + segv);
                        assert(pre + (segp + sp_merge(data, rem, pe as int, end as int)) =~= (pre
                            + segp) + sp_merge(data, rem, pe as int, end as int));
                    }
                    curp = pe;
                }
            } else {
                proof {
                    assert(rem =~= Seq::<(int, ChainModel)>::empty());
                }
                let seg = parse_events(
                    vstd::slice::slice_subrange(self.data.as_slice(), curp, end),
                    curp,
                );
                let ghost segv = evs_views(seg@);
                let mut seg2 = seg;
                events.append(&mut seg2);
                proof {
                    assert(evs_views(events@) =~= pre + segv);
                    assert(pre + (segv + Seq::<EventPositionedModel>::empty()) =~= pre + segv);
                }
                curp = end;
                proof {
                    assert(sp_merge(data, rem, end as int, end as int) =~= Seq::<
                        EventPositionedModel,
                    >::empty());
                    assert(pre + segv + sp_merge(data, rem, curp as int, end as int) =~= pre
                        + segv);
                }
            }
        }
        proof {
            assert(sp_merge(data, entries.skip(idx as int), curp as int, end as int) =~= Seq::<
                EventPositionedModel,
            >::empty());
            assert(evs_views(events@) + Seq::<EventPositionedModel>::empty() =~= evs_views(
                events@,
            ));
        }
        events
    }
}

/// One serialized event line, terminator included.
pub open spec fn sp_event_line(em: EventModel) -> Seq<u8> {
    crate::event::spec_serialize_event(em) + seq![0x0au8]
}

/// A chain's insertions as serialized lines, in order.
pub open spec fn sp_chain_lines(mods: Seq<EventModel>) -> Seq<u8>
    decreases mods.len(),
{
    if mods.len() == 0 {
        Seq::empty()
    } else {
        sp_chain_lines(mods.drop_last()) + sp_event_line(mods.last())
    }
}

/// The body of a saved file: walk the original bytes from `cur`, writing
/// each overlay entry's insertions at its anchor, skipping the anchored
/// original line when marked deleted, and copying untouched bytes verbatim.
pub open spec fn sp_copy_merge(data: Seq<u8>, entries: Seq<(int, ChainModel)>, cur: int) -> Seq<u8>
    decreases entries.len(), data.len() - cur,
{
    if !(0 <= cur < data.len()) {
        Seq::empty()
    } else if entries.len() == 0 {
        data.subrange(cur, data.len() as int)
    } else {
        let p = entries[0].0;
        let chain = entries[0].1;
        if p < cur {
            sp_copy_merge(data, entries.drop_first(), cur)
        } else if p == cur {
            let cur2 = if chain.original_deleted {
                sp_next_line_start(data, cur)
            } else {
                cur
            };
            sp_chain_lines(chain.mods) + sp_copy_merge(data, entries.drop_first(), cur2)
        } else {
            let pe = if p < data.len() {
                p
            } else {
                data.len() as int
            };
            data.subrange(cur, pe) + sp_copy_merge(data, entries, pe)
        }
    }
}

/// The whole saved file: the re-serialized header line, then the body from
/// just after the original header line.
pub open spec fn sp_save(m: CastFileModel) -> Seq<u8> {
    crate::header::spec_serialize_header(m.header) + seq![0x0au8] + sp_copy_merge(
        m.data,
        m.overlay,
        sp_next_line_start(m.data, 0),
    )
}

/// Append a chain's serialized lines.
fn push_chain_lines(out: &mut Vec<u8>, chain: &ModificationChain)
    ensures
        final(out)@ == old(out)@ + sp_chain_lines(chain@.mods),
{
    let m = chain.len();
    let mut j: usize = 0;
    proof {
        assert(chain@.mods.subrange(0, 0) =~= Seq::<EventModel>::empty());
        assert(out@ =~= old(out)@ + sp_chain_lines(chain@.mods.subrange(0, 0)));
    }
    while j < m
        invariant
            0 <= j <= m,
            m == chain@.mods.len(),
            out@ == old(out)@ + sp_chain_lines(chain@.mods.subrange(0, j as int)),
        decreases m - j,
    {
        let mut line = crate::event::serialize_event(chain.get_event(j));
        out.append(&mut line);
        out.push(0x0a);
        proof {
            let pfx = chain@.mods.subrange(0, j + 1);
            assert(pfx.drop_last() =~= chain@.mods.subrange(0, j as int));
            assert(pfx.last() == chain@.mods[j as int]);
            assert(out@ =~= old(out)@ + sp_chain_lines(pfx));
        }
        j += 1;
    }
    proof {
        assert(chain@.mods.subrange(0, m as int) =~= chain@.mods);
    }
}

impl CastFile {
    /// Produce the bytes of the saved file: the header re-serialized, then
    /// the original body with the overlay's insertions written at their
    /// anchors, deleted originals skipped, and untouched bytes copied
    /// verbatim.
    ///
    /// Fails exactly when the header carries a theme whose palette is not 8
    /// or 16 colors long; a header taken unchanged from [`CastFile::new`]
    /// always passes, since decoding validates palettes.
    pub fn save_to_bytes(&self) -> (r: Result<Vec<u8>, CastError>)
        requires
            self.wf(),
        ensures
            match r {
                Ok(v) => crate::header::header_palette_ok(self@.header) && v@ == sp_save(self@),
                Err(e) => !crate::header::header_palette_ok(self@.header) && e
                    == CastError::SerializationError,
            },
    {
        let mut out = match crate::header::serialize_header(&self.header) {
            Ok(v) => v,
            Err(e) => {
                return Err(e);
            },
        };
        out.push(0x0a);
        let ghost base = out@;
        proof {
            assert(base =~= crate::header::spec_serialize_header(self@.header) + seq![0x0au8]);
        }
        let len = self.data.len();
        let start = find_next_newline(self.data.as_slice(), 0);
        let ghost entries = self@.overlay;
        let ghost data = self@.data;
        let total = self.modifications.len();
        let mut idx: usize = 0;
        let mut curp: usize = start;
        proof {
            assert(entries.skip(0) =~= entries);
        }
        while curp < len
            invariant
                self.wf(),
                data == self@.data,
                entries == self@.overlay,
                total == entries.len(),
                idx <= total,
                curp <= len,
                len == data.len(),
                base == crate::header::spec_serialize_header(self@.header) + seq![0x0au8],
                out@ + sp_copy_merge(data, entries.skip(idx as int), curp as int) == base
                    + sp_copy_merge(data, entries, start as int),
            decreases total - idx, len - curp,
        {
            let ghost rem = entries.skip(idx as int);
            let ghost pre = out@;
            if idx < total {
                proof {
                    assert(rem[0] == entries[idx as int]);
                    assert(rem.drop_first() =~= entries.skip(idx as int + 1));
                }
                let p = self.modifications.key_at(idx);
                if p == curp {
                    let chain = self.modifications.chain_at_idx(idx);
                    push_chain_lines(&mut out, chain);
                    if chain.original_deleted() {
                        curp = find_next_newline(self.data.as_slice(), curp);
                    }
                    idx += 1;
                    proof {
                        assert(pre + (sp_chain_lines(rem[0].1.mods) + sp_copy_merge(
                            data,
                            rem.drop_first(),
                            curp as int,
                        )) =~= (pre + sp_chain_lines(rem[0].1.mods)) + sp_copy_merge(
                            data,
                            rem.drop_first(),
                            curp as int,
                        ));
                    }
                } else if p < curp {
                    idx += 1;
                } else {
                    let pe = if p < len {
                        p
                    } else {
                        len
                    };
                    let mut seg = crate::textutil::bytes_of(
                        vstd::slice::slice_subrange(self.data.as_slice(), curp, pe),
                    );
                    out.append(&mut seg);
                    proof {
                        assert(pre + (data.subrange(curp as int, pe as int) + sp_copy_merge(
                            data,
                            rem,
                            pe as int,
                        )) =~= (pre + data.subrange(curp as int, pe as int)) + sp_copy_merge(
                            data,
                            rem,
                            pe as int,
                        ));
                    }
                    curp = pe;
                }
            } else {
                let ghost curp_old = curp as int;
                proof {
                    assert(rem =~= Seq::<(int, ChainModel)>::empty());
                    assert(sp_copy_merge(data, rem, curp_old) == data.subrange(
                        curp_old,
                        len as int,
                    ));
                }
                let mut seg = crate::textutil::bytes_of(
                    vstd::slice::slice_subrange(self.data.as_slice(), curp, len),
                );
                out.append(&mut seg);
                curp = len;
                proof {
                    assert(sp_copy_merge(data, rem, len as int) =~= Seq::<u8>::empty());
                    assert(out@ + sp_copy_merge(data, rem, len as int) =~= pre + sp_copy_merge(
                        data,
                        rem,
                        curp_old,
                    ));
                }
            }
        }
        proof {
            assert(sp_copy_merge(data, entries.skip(idx as int), curp as int) =~= Seq::<
                u8,
            >::empty());
            assert(out@ + Seq::<u8>::empty() =~= out@);
        }
        Ok(out)
    }
}

/// The chain at `loc` as reads see it: an absent entry behaves like an
/// empty chain.
pub open spec fn sp_chain_or_empty(ov: Seq<(int, ChainModel)>, loc: int) -> ChainModel {
    match spec_chain_at(ov, loc) {
        Some(c) => c,
        None => empty_chain(),
    }
}

/// Deletion toggle idempotence: deleting twice with an order pointing past
/// the chain's length leaves the chain at that offset as it was — the
/// original line's deletion flag is restored and the insertions are
/// untouched — and both deletions are accepted.
pub proof fn lemma_deletion_toggle_idempotent(
    ov: Seq<(int, ChainModel)>,
    order: int,
    cur: EventPositionedModel,
)
    requires
        overlay_sorted(ov),
        order >= sp_chain_or_empty(ov, cur.byte_location).mods.len(),
    ensures
        ({
            let (ov1, r1) = sp_action(ov, ActionModel::Deletion, order, cur, None);
            let (ov2, r2) = sp_action(ov1, ActionModel::Deletion, order, cur, None);
            &&& r1 == Ok::<(), CastError>(())
            &&& r2 == Ok::<(), CastError>(())
            &&& sp_chain_or_empty(ov2, cur.byte_location) == sp_chain_or_empty(
                ov,
                cur.byte_location,
            )
        }),
{
    let loc = cur.byte_location;
    let c0 = sp_chain_or_empty(ov, loc);
    let ov_e = spec_ensure(ov, loc);
    crate::overlay::lemma_chain_at_ensure(ov, loc);
    crate::overlay::lemma_ensure_sorted(ov, loc);
    let c1 = ChainModel { mods: c0.mods, original_deleted: !c0.original_deleted };
    let (ov1, r1) = sp_action(ov, ActionModel::Deletion, order, cur, None);
    assert(ov1 == sp_set_chain(ov_e, loc, c1));
    crate::overlay::lemma_chain_at_set(ov_e, loc, c1);
    crate::overlay::lemma_set_chain_sorted(ov_e, loc, c1);
    crate::overlay::lemma_ensure_present(ov1, loc);
    let c2 = ChainModel { mods: c1.mods, original_deleted: !c1.original_deleted };
    let (ov2, r2) = sp_action(ov1, ActionModel::Deletion, order, cur, None);
    assert(ov2 == sp_set_chain(ov1, loc, c2));
    crate::overlay::lemma_chain_at_set(ov1, loc, c2);
    assert(c2 =~= c0);
}

/// Every event a parse of a window yields is anchored inside that window.
proof fn lemma_parse_events_locations(sl: Seq<u8>, base: int)
    ensures
        forall|q: int|
            0 <= q < sp_parse_events(sl, base).len() ==> base <= #[trigger] sp_parse_events(
                sl,
                base,
            )[q].byte_location < base + sl.len(),
    decreases sl.len(),
{
    if sl.len() > 0 {
        let nl0 = find_byte(sl, 0x0a, 0);
        crate::textutil::lemma_find_byte_props(sl, 0x0a, 0);
        let nl = if 0 <= nl0 <= sl.len() {
            nl0
        } else {
            sl.len() as int
        };
        if nl + 1 <= sl.len() {
            lemma_parse_events_locations(sl.subrange(nl + 1, sl.len() as int), base + nl + 1);
        }
    }
}

/// Every event a merged read yields is anchored inside the read's window.
pub proof fn lemma_merge_locations(
    data: Seq<u8>,
    entries: Seq<(int, ChainModel)>,
    cur: int,
    end: int,
)
    ensures
        forall|q: int|
            0 <= q < sp_merge(data, entries, cur, end).len() ==> cur <= #[trigger] sp_merge(
                data,
                entries,
                cur,
                end,
            )[q].byte_location < end,
    decreases entries.len(), end - cur,
{
    if cur >= end || !(0 <= cur && end <= data.len()) {
    } else if entries.len() == 0 {
        lemma_parse_events_locations(data.subrange(cur, end), cur);
    } else {
        let p = entries[0].0;
        let chain = entries[0].1;
        if p < cur {
            lemma_merge_locations(data, entries.drop_first(), cur, end);
        } else if p == cur {
            let cur2 = if chain.original_deleted {
                sp_next_line_start(data, cur)
            } else {
                cur
            };
            let cur3 = if cur2 > end {
                end
            } else {
                cur2
            };
            crate::textutil::lemma_find_byte_props(data, 0x0a, cur);
            assert(cur3 >= cur);
            lemma_merge_locations(data, entries.drop_first(), cur3, end);
            let r = sp_merge(data, entries, cur, end);
            let inserted = chain.mods.map_values(
                |em: EventModel| EventPositionedModel { event: em, byte_location: p },
            );
            assert forall|q: int| 0 <= q < r.len() implies cur <= #[trigger] r[q].byte_location
                < end by {
                if q < inserted.len() {
                    assert(r[q] == inserted[q]);
                } else {
                    assert(r[q] == sp_merge(data, entries.drop_first(), cur3, end)[q
                        - inserted.len()]);
                }
            }
        } else {
            let pe = if p < end {
                p
            } else {
                end
            };
            lemma_parse_events_locations(data.subrange(cur, pe), cur);
            lemma_merge_locations(data, entries, pe, end);
            let r = sp_merge(data, entries, cur, end);
            let seg = sp_parse_events(data.subrange(cur, pe), cur);
            assert forall|q: int| 0 <= q < r.len() implies cur <= #[trigger] r[q].byte_location
                < end by {
                if q < seg.len() {
                    assert(r[q] == seg[q]);
                } else {
                    assert(r[q] == sp_merge(data, entries, pe, end)[q - seg.len()]);
                }
            }
        }
    }
}

/// Anchors never go backwards along a run of positioned events.
pub open spec fn locs_ascending(v: Seq<EventPositionedModel>) -> bool {
    forall|i: int, j: int|
        0 <= i <= j < v.len() ==> v[i].byte_location <= v[j].byte_location
}

/// Parsed windows come back in ascending anchor order.
proof fn lemma_parse_events_ordered(sl: Seq<u8>, base: int)
    ensures
        locs_ascending(sp_parse_events(sl, base)),
    decreases sl.len(),
{
    lemma_parse_events_locations(sl, base);
    if sl.len() > 0 {
        let nl0 = find_byte(sl, 0x0a, 0);
        crate::textutil::lemma_find_byte_props(sl, 0x0a, 0);
        let nl = if 0 <= nl0 <= sl.len() {
            nl0
        } else {
            sl.len() as int
        };
        if nl + 1 <= sl.len() {
            let tail = sl.subrange(nl + 1, sl.len() as int);
            lemma_parse_events_ordered(tail, base + nl + 1);
            lemma_parse_events_locations(tail, base + nl + 1);
            let r = sp_parse_events(sl, base);
            let rest = sp_parse_events(tail, base + nl + 1);
            assert forall|i: int, j: int| 0 <= i <= j < r.len() implies r[i].byte_location
                <= r[j].byte_location by {
                let head = r.len() - rest.len();
                if j >= head {
                    assert(r[j] == rest[j - head]);
                }
                if i >= head {
                    assert(r[i] == rest[i - head]);
                }
            }
        }
    }
}

/// Result ordering: a merged read yields events in ascending byte order,
/// with each anchor's insertions standing immediately before the (possibly
/// suppressed) original line at that anchor.
pub proof fn lemma_merge_ordered(
    data: Seq<u8>,
    entries: Seq<(int, ChainModel)>,
    cur: int,
    end: int,
)
    requires
        overlay_sorted(entries),
    ensures
        locs_ascending(sp_merge(data, entries, cur, end)),
    decreases entries.len(), end - cur,
{
    lemma_merge_locations(data, entries, cur, end);
    if cur >= end || !(0 <= cur && end <= data.len()) {
    } else if entries.len() == 0 {
        lemma_parse_events_ordered(data.subrange(cur, end), cur);
        let seg = sp_parse_events(data.subrange(cur, end), cur);
        lemma_parse_events_locations(data.subrange(cur, end), cur);
        assert forall|i: int, j: int|
            0 <= i <= j < sp_merge(data, entries, cur, end).len() implies sp_merge(
            data,
            entries,
            cur,
            end,
        )[i].byte_location <= sp_merge(data, entries, cur, end)[j].byte_location by {
            assert(sp_merge(data, entries, cur, end)[i] == seg[i]);
            assert(sp_merge(data, entries, cur, end)[j] == seg[j]);
        }
    } else {
        let t = entries.drop_first();
        assert(overlay_sorted(t)) by {
            assert(forall|a: int, b: int|
                0 <= a < b < t.len() ==> t[a] == entries[a + 1] && t[b] == entries[b + 1]);
        }
        let p = entries[0].0;
        let chain = entries[0].1;
        if p < cur {
            lemma_merge_ordered(data, t, cur, end);
        } else if p == cur {
            let inserted = chain.mods.map_values(
                |em: EventModel| EventPositionedModel { event: em, byte_location: p },
            );
            let cur2 = if chain.original_deleted {
                sp_next_line_start(data, cur)
            } else {
                cur
            };
            let cur3 = if cur2 > end {
                end
            } else {
                cur2
            };
            crate::textutil::lemma_find_byte_props(data, 0x0a, cur);
            lemma_merge_ordered(data, t, cur3, end);
            lemma_merge_locations(data, t, cur3, end);
            let rest = sp_merge(data, t, cur3, end);
            let r = sp_merge(data, entries, cur, end);
            assert forall|i: int, j: int| 0 <= i <= j < r.len() implies r[i].byte_location
                <= r[j].byte_location by {
                let head = inserted.len() as int;
                if i < head {
                    assert(r[i] == inserted[i]);
                } else {
                    assert(r[i] == rest[i - head]);
                }
                if j < head {
                    assert(r[j] == inserted[j]);
                } else {
                    assert(r[j] == rest[j - head]);
                }
            }
        } else {
            let pe = if p < end {
                p
            } else {
                end
            };
            lemma_parse_events_ordered(data.subrange(cur, pe), cur);
            lemma_parse_events_locations(data.subrange(cur, pe), cur);
            lemma_merge_ordered(data, entries, pe, end);
            lemma_merge_locations(data, entries, pe, end);
            let seg = sp_parse_events(data.subrange(cur, pe), cur);
            let rest = sp_merge(data, entries, pe, end);
            let r = sp_merge(data, entries, cur, end);
            assert forall|i: int, j: int| 0 <= i <= j < r.len() implies r[i].byte_location
                <= r[j].byte_location by {
                let head = seg.len() as int;
                if i < head {
                    assert(r[i] == seg[i]);
                } else {
                    assert(r[i] == rest[i - head]);
                }
                if j < head {
                    assert(r[j] == seg[j]);
                } else {
                    assert(r[j] == rest[j - head]);
                }
            }
        }
    }
}

/// Window correctness at the start: a read from position zero always exists
/// and its window begins right after the first line terminator — the first
/// event line, the header excluded — so every event it yields is anchored
/// at or past that line.
pub proof fn lemma_get_lines_from_zero(data: Seq<u8>, entries: Seq<(int, ChainModel)>, n: nat)
    requires
        has_newline(data),
    ensures
        ({
            let hdr_end = sp_next_line_start(data, 0);
            &&& sp_get_lines(data, entries, 0, n) == Some(
                sp_merge(data, entries, hdr_end, sp_window_end(data, hdr_end, n)),
            )
            &&& forall|q: int|
                0 <= q < sp_get_lines(data, entries, 0, n)->Some_0.len() ==> #[trigger] sp_get_lines(
                    data,
                    entries,
                    0,
                    n,
                )->Some_0[q].byte_location >= hdr_end
        }),
{
    crate::textutil::lemma_find_byte_props(data, 0x0a, 0);
    let f = find_byte(data, 0x0a, 0);
    assert(f < data.len()) by {
        let w = choose|i: int| 0 <= i < data.len() && data[i] == 0x0a;
        if f == data.len() {
            assert(data[w] != 0x0a);
        }
    }
    let hdr_end = sp_next_line_start(data, 0);
    lemma_merge_locations(data, entries, hdr_end, sp_window_end(data, hdr_end, n));
}

/// Window correctness at the end: a read from the file's very end always
/// exists (no error even when fewer lines remain than asked for), and every
/// event it yields is anchored in the trailing window after the last line
/// terminator.
pub proof fn lemma_get_lines_at_end(data: Seq<u8>, entries: Seq<(int, ChainModel)>, n: nat)
    requires
        has_newline(data),
    ensures
        sp_get_lines(data, entries, data.len() as int, n) is Some,
        ({
            let cur = sp_window_start(data, data.len() as int)->Some_0;
            forall|q: int|
                0 <= q < sp_get_lines(data, entries, data.len() as int, n)->Some_0.len()
                    ==> cur <= #[trigger] sp_get_lines(
                    data,
                    entries,
                    data.len() as int,
                    n,
                )->Some_0[q].byte_location < sp_window_end(data, cur, n)
        }),
{
    lemma_window_start_total(data, data.len() as int);
    let cur = sp_window_start(data, data.len() as int)->Some_0;
    lemma_merge_locations(data, entries, cur, sp_window_end(data, cur, n));
}

/// Save fidelity: saving with no overlay entries reproduces the original
/// file byte for byte after the header line, behind the re-serialized
/// header.
pub proof fn lemma_save_no_overlay(m: CastFileModel)
    requires
        m.overlay.len() == 0,
    ensures
        sp_save(m) == crate::header::spec_serialize_header(m.header) + seq![0x0au8]
            + m.data.subrange(sp_next_line_start(m.data, 0), m.data.len() as int),
{
    crate::textutil::lemma_find_byte_props(m.data, 0x0a, 0);
    let start = sp_next_line_start(m.data, 0);
    if start < m.data.len() {
    } else {
        assert(sp_copy_merge(m.data, m.overlay, start) =~= m.data.subrange(
            start,
            m.data.len() as int,
        ));
    }
}

/// The mathematical image of an [`AdvancedModificationAction`].
#[verifier::ext_equal]
pub enum AdvancedActionModel {
    Modify(EventModel),
    Swap(EventPositionedModel, int),
}

impl View for AdvancedModificationAction {
    type V = AdvancedActionModel;

    open spec fn view(&self) -> AdvancedActionModel {
        match self {
            AdvancedModificationAction::Modify(e) => AdvancedActionModel::Modify(e@),
            AdvancedModificationAction::Swap(t, o) => AdvancedActionModel::Swap(t@, *o as int),
        }
    }
}

} // verus!
