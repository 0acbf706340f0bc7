//! The keyboard macro recorder: recording input events, stopping, and
//! playing them back.

use vstd::prelude::*;
use vstd::string::StringSliceAdditionalSpecFns;
use crate::text::same_bytes;

verus! {

/// What the recorder is doing.
#[derive(PartialEq, Eq, Structural, Debug, Clone, Copy)]
pub enum MacroMode {
    Stopped,
    Recording,
    Playing,
}

/// The event kinds a macro records: key presses, key releases and text
/// input.
pub open spec fn is_recorded_kind(kind: Seq<u8>) -> bool {
    ||| kind == "keypressed".spec_bytes()
    ||| kind == "keyreleased".spec_bytes()
    ||| kind == "textinput".spec_bytes()
}

/// Whether events of this kind are recorded.
pub fn is_recorded_event(kind: &str) -> (r: bool)
    ensures
        r == is_recorded_kind(kind.spec_bytes()),
{
    let k = kind.as_bytes();
    same_bytes(k, "keypressed".as_bytes()) || same_bytes(k, "keyreleased".as_bytes()) || same_bytes(
        k,
        "textinput".as_bytes(),
    )
}

/// The recorder's mode and the events of the last recording, oldest first.
pub struct MacroRecorder<E> {
    pub mode: MacroMode,
    pub events: Vec<E>,
}

/// The mode after the record command: a stopped recorder starts recording,
/// any other stops.
pub open spec fn toggled(mode: MacroMode) -> MacroMode {
    if mode == MacroMode::Stopped {
        MacroMode::Recording
    } else {
        MacroMode::Stopped
    }
}

/// The events kept after an event of kind `kind` arrives.
pub open spec fn after_event<E>(mode: MacroMode, events: Seq<E>, kind: Seq<u8>, event: E) -> Seq<E> {
    if mode == MacroMode::Recording && is_recorded_kind(kind) {
        events.push(event)
    } else {
        events
    }
}

impl<E> MacroRecorder<E> {
    /// A stopped recorder with no events.
    pub fn new() -> (r: Self)
        ensures
            r.mode == MacroMode::Stopped,
            r.events@ == Seq::<E>::empty(),
    {
        MacroRecorder { mode: MacroMode::Stopped, events: Vec::new() }
    }

    /// The record command: starting a recording forgets the previous one.
    pub fn toggle_record(&mut self)
        ensures
            final(self).mode == toggled(old(self).mode),
            old(self).mode == MacroMode::Stopped ==> final(self).events@ == Seq::<E>::empty(),
            old(self).mode != MacroMode::Stopped ==> final(self).events@ == old(self).events@,
    {
        if self.mode == MacroMode::Stopped {
            self.mode = MacroMode::Recording;
            self.events = Vec::new();
        } else {
            self.mode = MacroMode::Stopped;
        }
    }

    /// An input event of kind `kind` arrived.
    pub fn on_event(&mut self, kind: &str, event: E)
        ensures
            final(self).mode == old(self).mode,
            final(self).events@ == after_event(old(self).mode, old(self).events@, kind.spec_bytes(), event),
    {
        if self.mode == MacroMode::Recording && is_recorded_event(kind) {
            self.events.push(event);
        }
    }

    /// Playback begins; the events stay for replaying.
    pub fn start_play(&mut self)
        ensures
            final(self).mode == MacroMode::Playing,
            final(self).events@ == old(self).events@,
    {
        self.mode = MacroMode::Playing;
    }

    /// Playback ended.
    pub fn finish_play(&mut self)
        ensures
            final(self).mode == MacroMode::Stopped,
            final(self).events@ == old(self).events@,
    {
        self.mode = MacroMode::Stopped;
    }

    /// Whether editor commands may run: not while a macro plays.
    pub fn commands_allowed(&self) -> (r: bool)
        ensures
            r == (self.mode != MacroMode::Playing),
    {
        self.mode != MacroMode::Playing
    }
}

/// The events kept when the events `evs` (kind, event) arrive one after the
/// other in `mode`.
pub open spec fn feed<E>(mode: MacroMode, events: Seq<E>, evs: Seq<(Seq<u8>, E)>) -> Seq<E>
    decreases evs.len(),
{
    if evs.len() == 0 {
        events
    } else {
        feed(mode, after_event(mode, events, evs[0].0, evs[0].1), evs.drop_first())
    }
}

/// The recorded kinds among `evs`, in order.
pub open spec fn recorded_of<E>(evs: Seq<(Seq<u8>, E)>) -> Seq<E>
    decreases evs.len(),
{
    if evs.len() == 0 {
        seq![]
    } else {
        (if is_recorded_kind(evs[0].0) {
            seq![evs[0].1]
        } else {
            seq![]
        }) + recorded_of(evs.drop_first())
    }
}

proof fn lemma_feed_recording<E>(events: Seq<E>, evs: Seq<(Seq<u8>, E)>)
    ensures
        feed(MacroMode::Recording, events, evs) == events + recorded_of(evs),
    decreases evs.len(),
{
    if evs.len() > 0 {
        let next = after_event(MacroMode::Recording, events, evs[0].0, evs[0].1);
        lemma_feed_recording(next, evs.drop_first());
        if is_recorded_kind(evs[0].0) {
            assert(events.push(evs[0].1) + recorded_of(evs.drop_first()) =~= events + (seq![
                evs[0].1,
            ] + recorded_of(evs.drop_first())));
        } else {
            assert(seq![] + recorded_of(evs.drop_first()) =~= recorded_of(evs.drop_first()));
        }
    } else {
        assert(events + seq![] =~= events);
    }
}

proof fn lemma_feed_idle<E>(mode: MacroMode, events: Seq<E>, evs: Seq<(Seq<u8>, E)>)
    requires
        mode != MacroMode::Recording,
    ensures
        feed(mode, events, evs) == events,
    decreases evs.len(),
{
    if evs.len() > 0 {
        lemma_feed_idle(mode, events, evs.drop_first());
    }
}

/// A recording session — the record command on a stopped recorder, a run
/// of input events, the record command again — leaves exactly the key and
/// text events of that run, in order; events that come while the recorder
/// is stopped or playing change nothing.
pub proof fn recording_keeps_session_events<E>(
    old_events: Seq<E>,
    evs: Seq<(Seq<u8>, E)>,
    mode: MacroMode,
)
    ensures
        feed(toggled(MacroMode::Stopped), Seq::<E>::empty(), evs) == recorded_of(evs),
        mode != MacroMode::Recording ==> feed(mode, old_events, evs) == old_events,
{
    lemma_feed_recording(Seq::<E>::empty(), evs);
    assert(Seq::<E>::empty() + recorded_of(evs) =~= recorded_of(evs));
    if mode != MacroMode::Recording {
        lemma_feed_idle(mode, old_events, evs);
    }
}

} // verus!
