use vstd::prelude::*;
use crate::song::Note;

verus! {

/// Tempo carried by voices that hold no note.
pub const DEFAULT_BPM: u32 = 60;

/// A note as a voice holds it. Its times are in divisions; at the tempo it
/// was scheduled with, a time of `d` divisions lies `d · 60 / (96 · bpm)`
/// seconds into the song. A voice that holds no note has pitch 0.
#[derive(Clone, Copy, Debug, PartialEq, Eq, Structural)]
pub struct PlayedNote {
    pub pitch: u32,
    pub velocity: u16,
    /// Start, in divisions.
    pub start: u64,
    /// Length, in divisions.
    pub duration: u32,
    /// Beats per minute at the time the note was scheduled.
    pub bpm: u32,
}

impl PlayedNote {
    /// The note of a voice that plays nothing.
    pub open spec fn silent() -> PlayedNote {
        PlayedNote { pitch: 0, velocity: 0, start: 0, duration: 0, bpm: DEFAULT_BPM }
    }

    /// `note` as scheduled at `bpm`.
    pub open spec fn scheduled(note: Note, bpm: u32) -> PlayedNote {
        PlayedNote {
            pitch: note.pitch,
            velocity: note.velocity,
            start: note.start_divs() as u64,
            duration: note.duration,
            bpm,
        }
    }

    /// First division after the note.
    pub open spec fn end_divs(self) -> int {
        self.start + self.duration
    }

    /// Whether this note finishes, in seconds, strictly before `other` does:
    /// `end · 60 / (96 · bpm)` compared exactly, as fractions.
    pub open spec fn ends_before(self, other: PlayedNote) -> bool {
        self.end_divs() * other.bpm < other.end_divs() * self.bpm
    }

    pub fn empty() -> (n: PlayedNote)
        ensures
            n == PlayedNote::silent(),
    {
        PlayedNote { pitch: 0, velocity: 0, start: 0, duration: 0, bpm: DEFAULT_BPM }
    }

    /// `note` placed in a voice at tempo `bpm`.
    pub fn from(note: Note, bpm: u32) -> (n: PlayedNote)
        requires
            bpm > 0,
        ensures
            n == PlayedNote::scheduled(note, bpm),
    {
        PlayedNote {
            pitch: note.pitch,
            velocity: note.velocity,
            start: note.start.divs_wide(),
            duration: note.duration,
            bpm,
        }
    }

    /// Whether this note finishes strictly before `other` does.
    pub fn finishes_before(&self, other: &PlayedNote) -> (r: bool)
        ensures
            r == self.ends_before(*other),
    {
        proof {
            assert((self.start + self.duration) * other.bpm <= 0x2_0000_0000_0000_0000 * 0x1_0000_0000) by (nonlinear_arith)
                requires
                    self.start + self.duration <= 0x2_0000_0000_0000_0000,
                    other.bpm <= 0x1_0000_0000,
            ;
            assert((other.start + other.duration) * self.bpm <= 0x2_0000_0000_0000_0000 * 0x1_0000_0000) by (nonlinear_arith)
                requires
                    other.start + other.duration <= 0x2_0000_0000_0000_0000,
                    self.bpm <= 0x1_0000_0000,
            ;
        }
        let a = (self.start as u128 + self.duration as u128) * other.bpm as u128;
        let b = (other.start as u128 + other.duration as u128) * self.bpm as u128;
        a < b
    }
}

/// Finishing earlier is a strict order among notes with a positive tempo:
/// a note that finishes before `b` also finishes before any `c` that does
/// not finish before `b`.
proof fn lemma_ends_before_chain(a: PlayedNote, b: PlayedNote, c: PlayedNote)
    requires
        a.bpm > 0,
        b.bpm > 0,
        c.bpm > 0,
        a.ends_before(b),
        !c.ends_before(b),
    ensures
        a.ends_before(c),
{
    let (ae, be, ce) = (a.end_divs(), b.end_divs(), c.end_divs());
    let (am, bm, cm) = (a.bpm as int, b.bpm as int, c.bpm as int);
    assert(ae * cm < ce * am) by (nonlinear_arith)
        requires
            am > 0,
            bm > 0,
            cm > 0,
            ae * bm < be * am,
            be * cm <= ce * bm,
    ;
}

/// The voices of an instrument, each holding the note it plays.
pub struct VoicePool {
    notes: Vec<PlayedNote>,
}

/// Whether voice `i` is the first one that holds `pitch`.
pub open spec fn first_with_pitch(voices: Seq<PlayedNote>, pitch: u32, i: int) -> bool {
    &&& 0 <= i < voices.len()
    &&& voices[i].pitch == pitch
    &&& forall|j: int| 0 <= j < i ==> (#[trigger] voices[j]).pitch != pitch
}

/// Whether voice `i` finishes no later than any voice, and strictly before
/// every voice ahead of it.
pub open spec fn first_to_finish(voices: Seq<PlayedNote>, i: int) -> bool {
    &&& 0 <= i < voices.len()
    &&& forall|j: int| 0 <= j < voices.len() ==> !(#[trigger] voices[j]).ends_before(voices[i])
    &&& forall|j: int| 0 <= j < i ==> voices[i].ends_before(#[trigger] voices[j])
}

/// The voice that a note of `pitch` goes to: the first voice already
/// holding that pitch, or else the first of those that finish earliest.
pub open spec fn allotted_voice(voices: Seq<PlayedNote>, pitch: u32, i: int) -> bool {
    if exists|j: int| 0 <= j < voices.len() && (#[trigger] voices[j]).pitch == pitch {
        first_with_pitch(voices, pitch, i)
    } else {
        first_to_finish(voices, i)
    }
}

impl View for VoicePool {
    type V = Seq<PlayedNote>;

    closed spec fn view(&self) -> Seq<PlayedNote> {
        self.notes@
    }
}

impl VoicePool {
    /// Every voice's note carries a positive tempo.
    pub closed spec fn wf(&self) -> bool {
        forall|i: int| 0 <= i < self.notes@.len() ==> (#[trigger] self.notes@[i]).bpm > 0
    }

    /// `num_voices` voices, none of them playing.
    pub fn new(num_voices: usize) -> (p: VoicePool)
        ensures
            p.wf(),
            p@ == Seq::new(num_voices as nat, |i: int| PlayedNote::silent()),
    {
        let mut notes: Vec<PlayedNote> = Vec::new();
        let mut i: usize = 0;
        while i < num_voices
            invariant
                i <= num_voices,
                notes@ == Seq::new(i as nat, |k: int| PlayedNote::silent()),
            decreases num_voices - i,
        {
            notes.push(PlayedNote::empty());
            i += 1;
            proof {
                assert(notes@ =~= Seq::new(i as nat, |k: int| PlayedNote::silent()));
            }
        }
        VoicePool { notes }
    }

    /// Number of voices.
    pub fn len(&self) -> (r: usize)
        ensures
            r == self@.len(),
    {
        self.notes.len()
    }

    /// The note that voice `i` holds.
    pub fn note(&self, i: usize) -> (r: PlayedNote)
        requires
            i < self@.len(),
        ensures
            r == self@[i as int],
    {
        self.notes[i]
    }

    /// Gives `note`, scheduled at tempo `bpm`, to a voice and returns that
    /// voice's index. A voice already holding the note's pitch takes it;
    /// else the voice whose note finishes first, the lowest index among
    /// equals. No other voice changes.
    pub fn schedule(&mut self, note: Note, bpm: u32) -> (i: usize)
        requires
            old(self).wf(),
            old(self)@.len() > 0,
            bpm > 0,
        ensures
            final(self).wf(),
            allotted_voice(old(self)@, note.pitch, i as int),
            final(self)@ == old(self)@.update(i as int, PlayedNote::scheduled(note, bpm)),
    {
        let played = PlayedNote::from(note, bpm);
        let ghost voices = self@;
        let mut best: usize = 0;
        let mut n: usize = 0;
        while n < self.notes.len()
            invariant
                voices == self@,
                voices.len() > 0,
                bpm > 0,
                played == PlayedNote::scheduled(note, bpm),
                forall|k: int| 0 <= k < voices.len() ==> (#[trigger] voices[k]).bpm > 0,
                n <= voices.len(),
                best < voices.len(),
                best < n || (n == 0 && best == 0),
                old(self)@ == voices,
                forall|j: int| 0 <= j < n ==> (#[trigger] voices[j]).pitch != note.pitch,
                forall|j: int| 0 <= j < n ==> !(#[trigger] voices[j]).ends_before(voices[best as int]),
                forall|j: int| 0 <= j < best ==> voices[best as int].ends_before(#[trigger] voices[j]),
            decreases voices.len() - n,
        {
            let voice = self.notes[n];
            if voice.pitch == note.pitch {
                self.notes.set(n, played);
                proof {
                    assert(first_with_pitch(voices, note.pitch, n as int));
                }
                return n;
            }
            if n > 0 && voice.finishes_before(&self.notes[best]) {
                proof {
                    assert forall|j: int| 0 <= j < n implies voices[n as int].ends_before(#[trigger] voices[j]) by {
                        lemma_ends_before_chain(voices[n as int], voices[best as int], voices[j]);
                    }
                    assert forall|j: int| 0 <= j <= n implies !(#[trigger] voices[j]).ends_before(voices[n as int]) by {
                        if j < n && voices[j].ends_before(voices[n as int]) {
                            assert(!voices[best as int].ends_before(voices[n as int]));
                            lemma_ends_before_chain(voices[j], voices[n as int], voices[best as int]);
                        }
                    }
                }
                best = n;
            }
            n += 1;
        }
        self.notes.set(best, played);
        best
    }

    /// Empties every voice.
    pub fn flush(&mut self)
        requires
            old(self).wf(),
        ensures
            final(self).wf(),
            final(self)@ == Seq::new(old(self)@.len(), |i: int| PlayedNote::silent()),
    {
        let ghost len = self@.len();
        let mut i: usize = 0;
        while i < self.notes.len()
            invariant
                self@.len() == len,
                i <= len,
                forall|k: int| 0 <= k < i ==> #[trigger] self@[k] == PlayedNote::silent(),
                forall|k: int| 0 <= k < len ==> (#[trigger] self@[k]).bpm > 0,
            decreases len - i,
        {
            self.notes.set(i, PlayedNote::empty());
            i += 1;
        }
        proof {
            assert(self@ =~= Seq::new(len, |i: int| PlayedNote::silent()));
        }
    }
}

} // verus!
