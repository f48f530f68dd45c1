//! Decisions of the Wayland clipboard session: which globals to bind, what
//! a removed global takes with it, and which selection events are the
//! daemon's own offers rather than new copies.
use vstd::prelude::*;
use crate::constants::{INTERFACE_MANAGER, INTERFACE_SEAT};
use crate::mime::{is_offer_sensitive, offer_sensitive, receive_mime, select_receive_mime, strings_view};
use crate::text::{join_with, push_str, str_eq};

verus! {

/// Highest `wl_seat` version the session binds.
pub const MAX_SEAT_VERSION: u32 = 7;

/// Which globals the session holds, by their registry names.
pub struct RegistryState {
    pub manager_id: Option<u32>,
    pub seat_id: Option<u32>,
    /// A data device was created from the manager and the seat.
    pub has_device: bool,
}

/// What to do about an announced global.
pub enum GlobalAction {
    /// Bind the data-control manager `name` at version 1.
    BindManager { name: u32 },
    /// Bind the seat `name` at `version`.
    BindSeat { name: u32, version: u32 },
    /// Nothing.
    Ignore,
}

/// What a removed global takes with it.
pub struct RemovalEffect {
    /// The manager is gone.
    pub drop_manager: bool,
    /// The seat is gone, and with it the data device.
    pub drop_seat: bool,
}

/// The action for an announced global, given the globals already held.
pub open spec fn global_action(seat_id: Option<u32>, name: u32, interface: Seq<char>, version: u32) -> GlobalAction {
    if interface == INTERFACE_MANAGER@ && version >= 1 {
        GlobalAction::BindManager { name }
    } else if interface == INTERFACE_SEAT@ && seat_id is None {
        GlobalAction::BindSeat { name, version: if version < MAX_SEAT_VERSION { version } else { MAX_SEAT_VERSION } }
    } else {
        GlobalAction::Ignore
    }
}

/// The globals held after an announcement.
pub open spec fn after_global(s: RegistryState, name: u32, interface: Seq<char>, version: u32) -> RegistryState {
    match global_action(s.seat_id, name, interface, version) {
        GlobalAction::BindManager { name } => RegistryState { manager_id: Some(name), ..s },
        GlobalAction::BindSeat { name, .. } => RegistryState { seat_id: Some(name), ..s },
        GlobalAction::Ignore => s,
    }
}

/// The globals held after the removal of `name`.
pub open spec fn after_remove(s: RegistryState, name: u32) -> RegistryState {
    RegistryState {
        manager_id: if s.manager_id == Some(name) { None } else { s.manager_id },
        seat_id: if s.seat_id == Some(name) { None } else { s.seat_id },
        has_device: s.has_device && s.seat_id != Some(name),
    }
}

impl RegistryState {
    /// No global held.
    pub fn new() -> (s: RegistryState)
        ensures
            s.manager_id is None,
            s.seat_id is None,
            !s.has_device,
    {
        RegistryState { manager_id: None, seat_id: None, has_device: false }
    }

    /// Handles the announcement of global `name` with `interface` and
    /// `version`: a data-control manager of version 1 or later is bound (and
    /// replaces any earlier one); the first seat is bound at its version, at
    /// most `MAX_SEAT_VERSION`.
    pub fn on_global(&mut self, name: u32, interface: &str, version: u32) -> (a: GlobalAction)
        ensures
            a == global_action(old(self).seat_id, name, interface@, version),
            *final(self) == after_global(*old(self), name, interface@, version),
    {
        if str_eq(interface, INTERFACE_MANAGER) && version >= 1 {
            self.manager_id = Some(name);
            GlobalAction::BindManager { name }
        } else if str_eq(interface, INTERFACE_SEAT) && self.seat_id.is_none() {
            self.seat_id = Some(name);
            let v = if version < MAX_SEAT_VERSION { version } else { MAX_SEAT_VERSION };
            GlobalAction::BindSeat { name, version: v }
        } else {
            GlobalAction::Ignore
        }
    }

    /// Handles the removal of global `name`: the manager or the seat with
    /// that name is dropped, and the data device with the seat.
    pub fn on_global_remove(&mut self, name: u32) -> (e: RemovalEffect)
        ensures
            e.drop_manager == (old(self).manager_id == Some(name)),
            e.drop_seat == (old(self).seat_id == Some(name)),
            *final(self) == after_remove(*old(self), name),
    {
        let drop_manager = self.manager_id == Some(name);
        let drop_seat = self.seat_id == Some(name);
        if drop_manager {
            self.manager_id = None;
        }
        if drop_seat {
            self.seat_id = None;
            self.has_device = false;
        }
        RemovalEffect { drop_manager, drop_seat }
    }

    /// A data device can be created: a manager and a seat are held.
    pub fn can_create_device(&self) -> (b: bool)
        ensures
            b == (self.manager_id is Some && self.seat_id is Some),
    {
        self.manager_id.is_some() && self.seat_id.is_some()
    }

    /// Records that the data device was created.
    pub fn device_created(&mut self)
        ensures
            final(self).has_device,
            final(self).manager_id == old(self).manager_id,
            final(self).seat_id == old(self).seat_id,
    {
        self.has_device = true;
    }
}

/// Counts the clipboard offers the daemon makes itself, so that the
/// selection events they cause are not stored again.
pub struct SelectionGate {
    pub provider_locks: u32,
}

/// Own offers still to absorb after one more own offer.
pub open spec fn locks_after_offer(locks: u32) -> u32 {
    (locks + 1) as u32
}

/// A selection event is stored when no own offer is pending.
pub open spec fn selection_stored(locks: u32) -> bool {
    locks == 0
}

/// Own offers still to absorb after a selection event.
pub open spec fn locks_after_selection(locks: u32) -> u32 {
    if locks == 0 { 0 } else { (locks - 1) as u32 }
}

impl SelectionGate {
    pub fn new() -> (g: SelectionGate)
        ensures
            g.provider_locks == 0,
    {
        SelectionGate { provider_locks: 0 }
    }

    /// The daemon is about to offer a record itself.
    pub fn note_own_offer(&mut self)
        requires
            old(self).provider_locks < u32::MAX,
        ensures
            final(self).provider_locks == locks_after_offer(old(self).provider_locks),
    {
        self.provider_locks = self.provider_locks + 1;
    }

    /// A selection event arrived; returns whether its content is a new copy
    /// to store. Each own offer absorbs one event.
    pub fn on_selection(&mut self) -> (store: bool)
        ensures
            store == selection_stored(old(self).provider_locks),
            final(self).provider_locks == locks_after_selection(old(self).provider_locks),
    {
        if self.provider_locks > 0 {
            self.provider_locks = self.provider_locks - 1;
            false
        } else {
            true
        }
    }
}

/// The MIME type to receive for a selection event, if its content is to be
/// stored: not when the event answers an offer of the daemon, nor when the
/// selection is cleared, offers nothing, or offers a private type.
pub open spec fn selection_request_spec(locks: u32, offered: Option<Seq<Seq<char>>>) -> Option<Seq<char>> {
    if !selection_stored(locks) {
        None
    } else {
        match offered {
            None => None,
            Some(ms) => if ms.len() == 0 || offer_sensitive(ms) { None } else { Some(receive_mime(ms)) },
        }
    }
}

impl SelectionGate {
    /// Handles a selection event offering `offered` (`None` when the
    /// selection was cleared); returns the MIME type to receive and store.
    pub fn selection_request(&mut self, offered: Option<&Vec<String>>) -> (r: Option<String>)
        ensures
            final(self).provider_locks == locks_after_selection(old(self).provider_locks),
            match r {
                Some(m) => selection_request_spec(old(self).provider_locks, match offered {
                    Some(v) => Some(strings_view(v@)),
                    None => None,
                }) == Some(m@),
                None => selection_request_spec(old(self).provider_locks, match offered {
                    Some(v) => Some(strings_view(v@)),
                    None => None,
                }) is None,
            },
    {
        if !self.on_selection() {
            return None;
        }
        match offered {
            None => None,
            Some(ms) => {
                if ms.len() == 0 || is_offer_sensitive(ms) {
                    None
                } else {
                    Some(select_receive_mime(ms))
                }
            },
        }
    }
}

/// The selection event that follows an offer by the daemon is not stored,
/// and the count of pending offers returns to its value from before.
pub proof fn law_own_offer_is_not_stored(locks: u32)
    requires
        locks < u32::MAX,
    ensures
        !selection_stored(locks_after_offer(locks)),
        locks_after_selection(locks_after_offer(locks)) == locks,
{
}

/// With no own offer pending, every selection event is stored.
pub proof fn law_external_copy_is_stored()
    ensures
        selection_stored(0),
        locks_after_selection(0) == 0,
{
}

/// Binding a seat and then losing it leaves no seat and no data device,
/// and the manager untouched.
pub proof fn law_seat_bound_then_removed(s: RegistryState, name: u32, version: u32)
    requires
        s.seat_id is None,
        s.manager_id != Some(name),
    ensures
        ({
            let t = after_remove(after_global(s, name, INTERFACE_SEAT@, version), name);
            &&& t.seat_id is None
            &&& !t.has_device
            &&& t.manager_id == s.manager_id
        }),
{
    assert(INTERFACE_SEAT@ != INTERFACE_MANAGER@) by {
        reveal_strlit("wl_seat");
        reveal_strlit("ext_data_control_manager_v1");
        assert(INTERFACE_SEAT@.len() != INTERFACE_MANAGER@.len());
    }
}

/// Removing the manager leaves the seat and the data device alone.
pub proof fn law_manager_removal_keeps_seat(s: RegistryState, name: u32)
    requires
        s.manager_id == Some(name),
        s.seat_id != Some(name),
    ensures
        after_remove(s, name).manager_id is None,
        after_remove(s, name).seat_id == s.seat_id,
        after_remove(s, name).has_device == s.has_device,
{
}

/// The names of the capabilities a seat reports, separated by commas.
pub open spec fn capability_list(pointer: bool, keyboard: bool, touch: bool) -> Seq<char> {
    let names: Seq<Seq<char>> = (if pointer { seq!["pointer"@] } else { seq![] })
        + (if keyboard { seq!["keyboard"@] } else { seq![] })
        + (if touch { seq!["touch"@] } else { seq![] });
    join_with(names, ", "@)
}

/// The capabilities of a seat as text, e.g. `pointer, keyboard`.
pub fn capability_names(pointer: bool, keyboard: bool, touch: bool) -> (s: String)
    ensures
        s@ == capability_list(pointer, keyboard, touch),
{
    let mut s = String::new();
    let mut any = false;
    let ghost mut parts: Seq<Seq<char>> = seq![];
    if pointer {
        push_str(&mut s, "pointer");
        any = true;
        proof { parts = parts.push("pointer"@); }
        assert(s@ =~= join_with(parts, ", "@));
    }
    assert(s@ == join_with(parts, ", "@) && any == (parts.len() > 0));
    if keyboard {
        if any {
            push_str(&mut s, ", ");
        }
        push_str(&mut s, "keyboard");
        any = true;
        proof {
            let old_parts = parts;
            parts = parts.push("keyboard"@);
            assert(parts.drop_last() =~= old_parts);
        }
        assert(s@ =~= join_with(parts, ", "@));
    }
    assert(s@ == join_with(parts, ", "@) && any == (parts.len() > 0));
    if touch {
        if any {
            push_str(&mut s, ", ");
        }
        push_str(&mut s, "touch");
        proof {
            let old_parts = parts;
            parts = parts.push("touch"@);
            assert(parts.drop_last() =~= old_parts);
        }
        assert(s@ =~= join_with(parts, ", "@));
    }
    assert(parts =~= (if pointer { seq!["pointer"@] } else { seq![] })
        + (if keyboard { seq!["keyboard"@] } else { seq![] })
        + (if touch { seq!["touch"@] } else { seq![] }));
    s
}

} // verus!
