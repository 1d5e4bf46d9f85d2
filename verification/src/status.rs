//! The status signal: how the engine reports what it is doing.  The
//! recorder here keeps the reported events as values; the embedding
//! application renders them (text, LEDs) as it sees fit.

use vstd::prelude::*;
use crate::midi::{MidiMessage, MidiReceiver};
use crate::settings::Settings;

verus! {

/// What a status display is waiting for.
#[derive(Copy, Clone, PartialEq, Eq, Structural, Debug)]
pub enum WaitFor {
    Connect,
    Disconnect,
    Clock,
}

/// One reported status change, in order of occurrence.
#[derive(Debug)]
pub enum StatusEvent {
    ShowedSettings(Settings),
    ShowedCount(usize),
    BeatReset,
    Waiting(WaitFor),
}

/// The sink for the engine's status reports.  It doubles as a message
/// interceptor so a display can watch clock ticks for a beat indicator.
/// `beat_resets` models how many beat resets have been signalled, so the
/// modes can state exactly when they signal one.
pub trait StatusSignal: MidiReceiver {
    /// How many beat resets have been signalled so far.
    spec fn beat_resets(&self) -> nat;

    fn update_settings(&mut self, settings: &Settings)
        requires
            <Self as MidiReceiver>::inv(old(self)),
        ensures
            <Self as MidiReceiver>::inv(final(self)),
            final(self).beat_resets() == old(self).beat_resets(),
    ;

    fn update_count(&mut self, arpeggios: usize)
        requires
            <Self as MidiReceiver>::inv(old(self)),
        ensures
            <Self as MidiReceiver>::inv(final(self)),
            final(self).beat_resets() == old(self).beat_resets(),
    ;

    fn reset_beat(&mut self)
        requires
            <Self as MidiReceiver>::inv(old(self)),
        ensures
            <Self as MidiReceiver>::inv(final(self)),
            final(self).beat_resets() == old(self).beat_resets() + 1,
    ;

    fn waiting_for_midi_connect(&mut self)
        requires
            <Self as MidiReceiver>::inv(old(self)),
        ensures
            <Self as MidiReceiver>::inv(final(self)),
            final(self).beat_resets() == old(self).beat_resets(),
    ;

    fn waiting_for_midi_disconnect(&mut self)
        requires
            <Self as MidiReceiver>::inv(old(self)),
        ensures
            <Self as MidiReceiver>::inv(final(self)),
            final(self).beat_resets() == old(self).beat_resets(),
    ;

    fn waiting_for_midi_clock(&mut self)
        requires
            <Self as MidiReceiver>::inv(old(self)),
        ensures
            <Self as MidiReceiver>::inv(final(self)),
            final(self).beat_resets() == old(self).beat_resets(),
    ;
}

/// How many of the reported events are beat resets.
pub open spec fn beat_resets_of(s: Seq<StatusEvent>) -> nat
    decreases s.len(),
{
    if s.len() == 0 {
        0
    } else {
        beat_resets_of(s.drop_last()) + (if s.last() is BeatReset {
            1nat
        } else {
            0nat
        })
    }
}

/// A status signal that records its reports as events, deduplicating
/// repeated settings, counts and waits as a text display would.
pub struct TextStatus {
    count: Option<usize>,
    settings: Option<Settings>,
    waiting: Option<WaitFor>,
    events: Vec<StatusEvent>,
}

impl TextStatus {
    pub fn _new() -> (r: TextStatus)
        ensures
            r.events_len() == 0,
    {
        TextStatus { count: None, settings: None, waiting: None, events: Vec::new() }
    }

    pub closed spec fn events_len(&self) -> int {
        self.events@.len() as int
    }

    /// The reported events, as a value.
    pub closed spec fn events_view(&self) -> Seq<StatusEvent> {
        self.events@
    }

    /// The reports so far, for the application to render.
    pub fn events(&self) -> &Vec<StatusEvent> {
        &self.events
    }

    /// Forget that a wait was being shown, so the next wait is shown
    /// again.
    pub fn clear_wait(&mut self)
        ensures
            final(self).events_view() == old(self).events_view(),
    {
        self.waiting = None;
    }

    fn show_wait(&mut self, wait_for: WaitFor)
        ensures
            beat_resets_of(final(self).events@) == beat_resets_of(old(self).events@),
    {
        if let Some(already) = self.waiting {
            if already == wait_for {
                return ;
            }
        }
        let ghost pre = self.events@;
        self.events.push(StatusEvent::Waiting(wait_for));
        proof {
            assert(self.events@.drop_last() =~= pre);
        }
        self.waiting = Some(wait_for);
    }
}

impl MidiReceiver for TextStatus {
    open spec fn inv(&self) -> bool {
        true
    }

    fn passthrough_midi(&mut self, message: MidiMessage) -> (r: Option<MidiMessage>) {
        Some(message)
    }
}

impl StatusSignal for TextStatus {
    closed spec fn beat_resets(&self) -> nat {
        beat_resets_of(self.events@)
    }

    fn update_settings(&mut self, settings: &Settings) {
        self.clear_wait();
        let changed: bool = match &self.settings {
            None => true,
            Some(existing) => !existing.same_as(settings),
        };
        if changed {
            self.settings = Some(settings.duplicate());
            let ghost pre = self.events@;
            self.events.push(StatusEvent::ShowedSettings(settings.duplicate()));
            proof {
                assert(self.events@.drop_last() =~= pre);
            }
        }
    }

    fn update_count(&mut self, arpeggios: usize) {
        let changed: bool = match self.count {
            None => true,
            Some(existing) => existing != arpeggios,
        };
        if changed {
            self.count = Some(arpeggios);
            let ghost pre = self.events@;
            self.events.push(StatusEvent::ShowedCount(arpeggios));
            proof {
                assert(self.events@.drop_last() =~= pre);
            }
        }
    }

    fn reset_beat(&mut self) {
        let ghost pre = self.events@;
        self.events.push(StatusEvent::BeatReset);
        proof {
            assert(self.events@.drop_last() =~= pre);
        }
    }

    fn waiting_for_midi_connect(&mut self) {
        self.show_wait(WaitFor::Connect);
    }

    fn waiting_for_midi_disconnect(&mut self) {
        self.show_wait(WaitFor::Disconnect);
    }

    fn waiting_for_midi_clock(&mut self) {
        self.show_wait(WaitFor::Clock);
    }
}

} // verus!
