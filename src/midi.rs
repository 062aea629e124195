//! MIDI devices as the graph's collaborators see them: a name and whether
//! the device is connected.

use vstd::prelude::*;

verus! {

/// Kinds of MIDI events.
#[derive(Clone, Copy, PartialEq, Eq, Debug, Structural)]
pub enum MidiEventType {
    NoteOn,
    NoteOff,
    ControlChange,
    PitchBend,
    Aftertouch,
}

/// Error reported by a MIDI device operation.
#[derive(Clone, Debug)]
pub struct MidiError {
    pub message: String,
}

/// A MIDI input device.
pub struct MidiInputDevice {
    name: String,
    connected: bool,
}

impl MidiInputDevice {
    pub closed spec fn name_view(&self) -> Seq<char> {
        self.name@
    }

    pub closed spec fn connected_view(&self) -> bool {
        self.connected
    }

    /// A disconnected device with the given name.
    pub fn new(name: &str) -> (r: MidiInputDevice)
        ensures
            r.name_view() == name@,
            !r.connected_view(),
    {
        MidiInputDevice { name: name.to_owned(), connected: false }
    }

    /// Connects the device.
    pub fn connect(&mut self) -> (r: Result<(), MidiError>)
        ensures
            r is Ok,
            final(self).connected_view(),
            final(self).name_view() == old(self).name_view(),
    {
        self.connected = true;
        Ok(())
    }

    /// Disconnects the device.
    pub fn disconnect(&mut self)
        ensures
            !final(self).connected_view(),
            final(self).name_view() == old(self).name_view(),
    {
        self.connected = false;
    }

    /// Whether the device is connected.
    pub fn is_connected(&self) -> (r: bool)
        ensures
            r == self.connected_view(),
    {
        self.connected
    }

    /// The device's name.
    pub fn name(&self) -> (r: &str)
        ensures
            r@ == self.name_view(),
    {
        self.name.as_str()
    }
}

/// A MIDI output device.
pub struct MidiOutputDevice {
    name: String,
    connected: bool,
}

impl MidiOutputDevice {
    pub closed spec fn name_view(&self) -> Seq<char> {
        self.name@
    }

    pub closed spec fn connected_view(&self) -> bool {
        self.connected
    }

    /// A disconnected device with the given name.
    pub fn new(name: &str) -> (r: MidiOutputDevice)
        ensures
            r.name_view() == name@,
            !r.connected_view(),
    {
        MidiOutputDevice { name: name.to_owned(), connected: false }
    }

    /// Connects the device.
    pub fn connect(&mut self) -> (r: Result<(), MidiError>)
        ensures
            r is Ok,
            final(self).connected_view(),
            final(self).name_view() == old(self).name_view(),
    {
        self.connected = true;
        Ok(())
    }

    /// Disconnects the device.
    pub fn disconnect(&mut self)
        ensures
            !final(self).connected_view(),
            final(self).name_view() == old(self).name_view(),
    {
        self.connected = false;
    }

    /// Whether the device is connected.
    pub fn is_connected(&self) -> (r: bool)
        ensures
            r == self.connected_view(),
    {
        self.connected
    }

    /// The device's name.
    pub fn name(&self) -> (r: &str)
        ensures
            r@ == self.name_view(),
    {
        self.name.as_str()
    }
}

} // verus!
