use vstd::prelude::*;

verus! {

/// Divisions of one beat (a quarter note).
pub const BEAT_DIVISIONS: u32 = 96;

/// A point in a song, as a beat and a division within that beat.
#[derive(Clone, Copy, Debug, PartialEq, Eq, Structural)]
pub struct Time {
    pub beat: u32,
    pub division: u32,
}

impl Time {
    /// The position of this time counted in divisions from the start.
    pub open spec fn divs(self) -> int {
        self.beat * BEAT_DIVISIONS + self.division
    }

    /// Whether the division lies within one beat.
    pub open spec fn normalized(self) -> bool {
        self.division < BEAT_DIVISIONS
    }

    /// The normalized time that lies `divisions` after this one.
    pub open spec fn spec_add(self, divisions: int) -> Time {
        let total = self.divs() + divisions;
        Time { beat: (total / BEAT_DIVISIONS as int) as u32, division: (total % BEAT_DIVISIONS as int) as u32 }
    }

    /// The time at `division` divisions into beat `beat`.
    pub fn new(beat: u32, division: u32) -> (t: Time)
        ensures
            t.beat == beat,
            t.division == division,
    {
        Time { beat, division }
    }

    /// The position in divisions, in a width that always holds it.
    pub fn divs_wide(&self) -> (r: u64)
        ensures
            r == self.divs(),
    {
        assert(self.beat as u64 * BEAT_DIVISIONS as u64 <= 0xffff_ffff * 96) by (nonlinear_arith)
            requires
                self.beat <= 0xffff_ffff,
        ;
        self.beat as u64 * BEAT_DIVISIONS as u64 + self.division as u64
    }

    /// The time `divisions` later, with the division brought back under
    /// `BEAT_DIVISIONS`.
    pub fn add(&self, divisions: u32) -> (t: Time)
        requires
            self.divs() + divisions < BEAT_DIVISIONS * 0x1_0000_0000,
        ensures
            t == self.spec_add(divisions as int),
            t.normalized(),
            t.divs() == self.divs() + divisions,
    {
        let total: u64 = self.divs_wide() + divisions as u64;
        let beat: u64 = total / BEAT_DIVISIONS as u64;
        let division: u64 = total % BEAT_DIVISIONS as u64;
        Time { beat: beat as u32, division: division as u32 }
    }

    /// The signed number of divisions from `t` to this time.
    pub fn diff(&self, t: Time) -> (r: i32)
        requires
            i32::MIN <= self.divs() - t.divs() <= i32::MAX,
        ensures
            r == self.divs() - t.divs(),
    {
        let d: i64 = self.divs_wide() as i64 - t.divs_wide() as i64;
        d as i32
    }

    /// The position in divisions.
    pub fn as_divs(&self) -> (r: u32)
        requires
            self.divs() <= u32::MAX,
        ensures
            r == self.divs(),
    {
        self.beat * BEAT_DIVISIONS + self.division
    }
}

/// Adding divisions to a time moves its position by exactly that amount,
/// wherever the resulting beat still fits its field.
pub proof fn lemma_add_moves_position(t: Time, k: nat)
    requires
        t.divs() + k < BEAT_DIVISIONS * 0x1_0000_0000,
    ensures
        t.spec_add(k as int).divs() == t.divs() + k,
        t.spec_add(k as int).normalized(),
{
}

/// Velocity of a note played at full strength; velocities are counted in
/// thousandths of it.
pub const FULL_VELOCITY: u16 = 1000;

/// Number of pitches in one octave.
pub const OCTAVE: u32 = 12;

/// One note of a song.
#[derive(Clone, Copy, Debug, PartialEq, Eq, Structural)]
pub struct Note {
    /// Semitones above C0.
    pub pitch: u32,
    /// When the note starts.
    pub start: Time,
    /// Length in divisions; a quarter note lasts `BEAT_DIVISIONS`.
    pub duration: u32,
    /// Loudness, from 0 to `FULL_VELOCITY`.
    pub velocity: u16,
}

/// The name of a pitch class (0 is C, 11 is B).
pub open spec fn pitch_class_name(pc: int) -> Seq<char> {
    if pc == 0 {
        seq!['C']
    } else if pc == 1 {
        seq!['C', '#']
    } else if pc == 2 {
        seq!['D']
    } else if pc == 3 {
        seq!['D', '#']
    } else if pc == 4 {
        seq!['E']
    } else if pc == 5 {
        seq!['F']
    } else if pc == 6 {
        seq!['F', '#']
    } else if pc == 7 {
        seq!['G']
    } else if pc == 8 {
        seq!['G', '#']
    } else if pc == 9 {
        seq!['A']
    } else if pc == 10 {
        seq!['A', '#']
    } else {
        seq!['B']
    }
}

impl Note {
    /// First division the note sounds in.
    pub open spec fn start_divs(self) -> int {
        self.start.divs()
    }

    /// First division after the note.
    pub open spec fn end_divs(self) -> int {
        self.start.divs() + self.duration
    }

    /// Whether the spans `[start, start + duration)` of the two notes share a division.
    pub open spec fn overlaps(self, other: Note) -> bool {
        exists|t: int| self.covers(t) && other.covers(t)
    }

    /// Whether the span of the note holds the division `t`.
    pub open spec fn covers(self, t: int) -> bool {
        self.start_divs() <= t < self.end_divs()
    }

    pub fn new(pitch: u32, beat: u32, division: u32, duration: u32, velocity: u16) -> (n: Note)
        requires
            velocity <= FULL_VELOCITY,
        ensures
            n.pitch == pitch,
            n.start.beat == beat,
            n.start.division == division,
            n.duration == duration,
            n.velocity == velocity,
    {
        Note { pitch, start: Time::new(beat, division), duration, velocity }
    }

    /// First division after the note, in a width that always holds it.
    pub fn end_wide(&self) -> (r: u64)
        ensures
            r == self.end_divs(),
    {
        self.start.divs_wide() + self.duration as u64
    }

    /// Whether this note and `note` sound together at some division.
    pub fn overlap(&self, note: Note) -> (r: bool)
        ensures
            r == self.overlaps(note),
    {
        let s1 = self.start.divs_wide();
        let e1 = self.end_wide();
        let s2 = note.start.divs_wide();
        let e2 = note.end_wide();
        let r = s1 < e1 && s2 < e2 && s1 < e2 && s2 < e1;
        proof {
            if r {
                let t = if s1 < s2 { s2 as int } else { s1 as int };
                assert(self.covers(t) && note.covers(t));
            }
        }
        r
    }

    /// Whether the note sounds at `time`.
    pub fn contains(&self, time: Time) -> (r: bool)
        ensures
            r == self.covers(time.divs()),
    {
        let t = time.divs_wide();
        t >= self.start.divs_wide() && t < self.end_wide()
    }

    /// The name of the note's pitch class, such as "C#".
    pub fn name(&self) -> (r: &'static str)
        ensures
            r@ == pitch_class_name((self.pitch % OCTAVE) as int),
    {
        let pc = self.pitch % OCTAVE;
        if pc == 0 {
            proof { reveal_strlit("C"); }
            "C"
        } else if pc == 1 {
            proof { reveal_strlit("C#"); }
            "C#"
        } else if pc == 2 {
            proof { reveal_strlit("D"); }
            "D"
        } else if pc == 3 {
            proof { reveal_strlit("D#"); }
            "D#"
        } else if pc == 4 {
            proof { reveal_strlit("E"); }
            "E"
        } else if pc == 5 {
            proof { reveal_strlit("F"); }
            "F"
        } else if pc == 6 {
            proof { reveal_strlit("F#"); }
            "F#"
        } else if pc == 7 {
            proof { reveal_strlit("G"); }
            "G"
        } else if pc == 8 {
            proof { reveal_strlit("G#"); }
            "G#"
        } else if pc == 9 {
            proof { reveal_strlit("A"); }
            "A"
        } else if pc == 10 {
            proof { reveal_strlit("A#"); }
            "A#"
        } else {
            proof { reveal_strlit("B"); }
            "B"
        }
    }

    /// The octave the note lies in (octave 0 starts at C0).
    pub fn octave(&self) -> (r: u32)
        ensures
            r == self.pitch / OCTAVE,
    {
        self.pitch / OCTAVE
    }
}

/// Overlap does not depend on the order of the two notes.
pub proof fn lemma_overlap_symmetric(a: Note, b: Note)
    ensures
        a.overlaps(b) == b.overlaps(a),
{
}

/// A note that lasts no divisions overlaps nothing, itself included.
pub proof fn lemma_empty_note_overlaps_nothing(a: Note, b: Note)
    requires
        a.duration == 0,
    ensures
        !a.overlaps(b),
        !b.overlaps(a),
        !a.overlaps(a),
{
}

/// A song: a tempo, a bar length and a list of parts, each a list of notes.
#[derive(Clone, Debug, PartialEq, Eq)]
pub struct Song {
    /// Beats per minute.
    pub bpm: u32,
    /// Beats in one bar (4 for 4/4, 3 for 3/4).
    pub beats_per_bar: u32,
    /// The notes of each part.
    pub parts: Vec<Vec<Note>>,
}

/// Whether two notes of a part claim the same pitch at the same division.
pub open spec fn clashes(a: Note, b: Note) -> bool {
    a.pitch == b.pitch && a.overlaps(b)
}

/// Whether no two notes of a part claim the same pitch at the same division.
pub open spec fn part_is_clean(p: Seq<Note>) -> bool {
    forall|i: int, j: int| 0 <= i < p.len() && 0 <= j < p.len() && i != j ==> !clashes(#[trigger] p[i], #[trigger] p[j])
}

/// Whether `n` has `pitch` and sounds at division `t`.
pub open spec fn sounds_at(n: Note, t: int, pitch: u32) -> bool {
    n.pitch == pitch && n.covers(t)
}

/// Every note of the song with the index of its part: the parts in order,
/// and each part's notes in their order.
pub open spec fn entries(parts: Seq<Seq<Note>>) -> Seq<(usize, Note)>
    decreases parts.len(),
{
    if parts.len() == 0 {
        Seq::empty()
    } else {
        entries(parts.drop_last()) + parts.last().map_values(
            |n: Note| ((parts.len() - 1) as usize, n),
        )
    }
}

/// The division at which an entry's note starts.
pub open spec fn entry_start(e: (usize, Note)) -> int {
    e.1.start_divs()
}

/// `r[k] == s[order[k]]` for every `k`, and `r` runs by ascending start,
/// entries that start together keeping their order in `s`.
pub open spec fn orders_by_start(s: Seq<(usize, Note)>, r: Seq<(usize, Note)>, order: Seq<int>) -> bool {
    &&& r.len() == s.len()
    &&& order.len() == s.len()
    &&& forall|k: int| 0 <= k < r.len() ==> 0 <= #[trigger] order[k] < s.len() && r[k] == s[order[k]]
    &&& forall|k: int, l: int|
        #![trigger r[k], r[l]]
        0 <= k < l < r.len() ==> entry_start(r[k]) < entry_start(r[l]) || (entry_start(r[k]) == entry_start(r[l])
            && order[k] < order[l])
}

/// `r` is `s` sorted by start with a stable sort.
pub open spec fn stable_sorted_by_start(s: Seq<(usize, Note)>, r: Seq<(usize, Note)>) -> bool {
    exists|order: Seq<int>| orders_by_start(s, r, order)
}

/// Whether the entries run by ascending start.
pub open spec fn ascending_start(r: Seq<(usize, Note)>) -> bool {
    forall|k: int, l: int| 0 <= k <= l < r.len() ==> entry_start(#[trigger] r[k]) <= entry_start(#[trigger] r[l])
}

/// Where the last note of a part ends, or 0 for an empty part.
pub open spec fn last_end(p: Seq<Note>) -> int {
    if p.len() == 0 {
        0
    } else {
        p.last().end_divs()
    }
}

/// The latest end among the last notes of the parts, or 0.
pub open spec fn song_end(parts: Seq<Seq<Note>>) -> int
    decreases parts.len(),
{
    if parts.len() == 0 {
        0
    } else {
        let rest = song_end(parts.drop_last());
        let last = last_end(parts.last());
        if rest >= last {
            rest
        } else {
            last
        }
    }
}

impl Song {
    /// The notes of each part.
    pub open spec fn parts_view(&self) -> Seq<Seq<Note>> {
        self.parts@.map_values(|p: Vec<Note>| p@)
    }

    /// A song with `num_parts` empty parts.
    pub fn new(num_parts: usize, bpm: u32, beats_per_bar: u32) -> (s: Song)
        ensures
            s.bpm == bpm,
            s.beats_per_bar == beats_per_bar,
            s.parts_view() == Seq::new(num_parts as nat, |i: int| Seq::<Note>::empty()),
    {
        let mut parts: Vec<Vec<Note>> = Vec::new();
        let mut i: usize = 0;
        while i < num_parts
            invariant
                i <= num_parts,
                parts@.len() == i,
                forall|k: int| 0 <= k < i ==> (#[trigger] parts@[k])@ == Seq::<Note>::empty(),
            decreases num_parts - i,
        {
            parts.push(Vec::new());
            i += 1;
        }
        let s = Song { bpm, beats_per_bar, parts };
        assert(s.parts_view() =~= Seq::new(num_parts as nat, |i: int| Seq::<Note>::empty()));
        s
    }

    /// Appends `note` to part `part`.
    pub fn add_note(&mut self, part: usize, note: Note)
        requires
            part < old(self).parts@.len(),
        ensures
            final(self).bpm == old(self).bpm,
            final(self).beats_per_bar == old(self).beats_per_bar,
            final(self).parts_view() == old(self).parts_view().update(
                part as int,
                old(self).parts_view()[part as int].push(note),
            ),
    {
        self.parts[part].push(note);
        assert(self.parts_view() =~= old(self).parts_view().update(
            part as int,
            old(self).parts_view()[part as int].push(note),
        ));
    }

    /// The first note of part `part` that has `pitch` and sounds at `t`,
    /// with its index.
    pub fn find_note(&self, part: usize, t: Time, pitch: u32) -> (r: Option<(usize, Note)>)
        requires
            part < self.parts@.len(),
        ensures
            match r {
                Some((i, n)) => {
                    &&& i < self.parts_view()[part as int].len()
                    &&& n == self.parts_view()[part as int][i as int]
                    &&& sounds_at(n, t.divs(), pitch)
                    &&& forall|j: int| 0 <= j < i ==> !sounds_at(#[trigger] self.parts_view()[part as int][j], t.divs(), pitch)
                },
                None => forall|j: int|
                    0 <= j < self.parts_view()[part as int].len() ==> !sounds_at(#[trigger] self.parts_view()[part as int][j], t.divs(), pitch),
            },
    {
        let notes = &self.parts[part];
        let mut i: usize = 0;
        while i < notes.len()
            invariant
                notes@ == self.parts_view()[part as int],
                i <= notes@.len(),
                forall|j: int| 0 <= j < i ==> !sounds_at(#[trigger] notes@[j], t.divs(), pitch),
            decreases notes@.len() - i,
        {
            let n = notes[i];
            if n.pitch == pitch && n.contains(t) {
                return Some((i, n));
            }
            i += 1;
        }
        None
    }

    /// Places `note` in part `part`, first taking out every note of that
    /// part with the same pitch whose span overlaps it.
    pub fn insert_note(&mut self, part: usize, note: Note)
        requires
            part < old(self).parts@.len(),
        ensures
            final(self).bpm == old(self).bpm,
            final(self).beats_per_bar == old(self).beats_per_bar,
            final(self).parts_view() == old(self).parts_view().update(
                part as int,
                old(self).parts_view()[part as int].filter(|n: Note| !clashes(n, note)).push(note),
            ),
            part_is_clean(old(self).parts_view()[part as int]) ==> part_is_clean(
                final(self).parts_view()[part as int],
            ),
    {
        let ghost old_part = self.parts_view()[part as int];
        let ghost keep = |n: Note| !clashes(n, note);
        let mut kept: Vec<Note> = Vec::new();
        let ghost mut pos: Seq<int> = Seq::empty();
        let mut i: usize = 0;
        while i < self.parts[part].len()
            invariant
                part < self.parts@.len(),
                self.parts_view() == old(self).parts_view(),
                old_part == self.parts_view()[part as int],
                keep == (|n: Note| !clashes(n, note)),
                i <= old_part.len(),
                kept@ == old_part.take(i as int).filter(keep),
                pos.len() == kept@.len(),
                forall|k: int| 0 <= k < pos.len() ==> 0 <= #[trigger] pos[k] < i && kept@[k] == old_part[pos[k]],
                forall|k: int, l: int| 0 <= k < l < pos.len() ==> #[trigger] pos[k] < #[trigger] pos[l],
                forall|k: int| 0 <= k < kept@.len() ==> !clashes(#[trigger] kept@[k], note),
            decreases old_part.len() - i,
        {
            let n = self.parts[part][i];
            proof {
                assert(old_part.take(i as int + 1) =~= old_part.take(i as int).push(n));
                old_part.take(i as int).lemma_filter_push(n, keep);
            }
            if !(n.pitch == note.pitch && n.overlap(note)) {
                kept.push(n);
                proof {
                    pos = pos.push(i as int);
                }
            }
            i += 1;
        }
        proof {
            assert(old_part.take(i as int) =~= old_part);
        }
        kept.push(note);
        self.parts.set(part, kept);
        proof {
            let new_part = self.parts_view()[part as int];
            assert(self.parts_view() =~= old(self).parts_view().update(
                part as int,
                old_part.filter(keep).push(note),
            ));
            if part_is_clean(old_part) {
                assert forall|a: int, b: int|
                    0 <= a < new_part.len() && 0 <= b < new_part.len() && a != b implies !clashes(
                    #[trigger] new_part[a],
                    #[trigger] new_part[b],
                ) by {
                    if a < pos.len() && b < pos.len() {
                        assert(old_part[pos[a]] == new_part[a]);
                        assert(old_part[pos[b]] == new_part[b]);
                        if a < b {
                            assert(pos[a] < pos[b]);
                        } else {
                            assert(pos[b] < pos[a]);
                        }
                    } else if a < pos.len() {
                        assert(!clashes(new_part[a], note));
                        assert(clashes(new_part[a], new_part[b]) == clashes(new_part[b], new_part[a]));
                    } else if b < pos.len() {
                        assert(!clashes(new_part[b], note));
                        assert(clashes(new_part[a], new_part[b]) == clashes(new_part[b], new_part[a]));
                    }
                }
            }
        }
    }

    /// The division at which the song ends: the latest end among the last
    /// notes of its parts.
    pub fn duration_divs(&self) -> (r: u64)
        ensures
            r == song_end(self.parts_view()),
    {
        let ghost pv = self.parts_view();
        let mut best: u64 = 0;
        let mut i: usize = 0;
        while i < self.parts.len()
            invariant
                pv == self.parts_view(),
                i <= pv.len(),
                best == song_end(pv.take(i as int)),
            decreases pv.len() - i,
        {
            proof {
                assert(pv.take(i as int + 1).drop_last() =~= pv.take(i as int));
            }
            let part = &self.parts[i];
            if part.len() > 0 {
                let end = part[part.len() - 1].end_wide();
                if end > best {
                    best = end;
                }
            }
            i += 1;
        }
        proof {
            assert(pv.take(i as int) =~= pv);
        }
        best
    }

    /// Every note of the song with the index of its part, ordered by start;
    /// notes that start together keep their order, parts first by index,
    /// then by position in the part.
    pub fn sequence(&self) -> (r: Vec<(usize, Note)>)
        ensures
            stable_sorted_by_start(entries(self.parts_view()), r@),
            ascending_start(r@),
    {
        let ghost pv = self.parts_view();
        let mut flat: Vec<(usize, Note)> = Vec::new();
        let mut i: usize = 0;
        while i < self.parts.len()
            invariant
                pv == self.parts_view(),
                i <= pv.len(),
                flat@ == entries(pv.take(i as int)),
            decreases pv.len() - i,
        {
            let part = &self.parts[i];
            let mut j: usize = 0;
            while j < part.len()
                invariant
                    pv == self.parts_view(),
                    i < pv.len(),
                    part@ == pv[i as int],
                    j <= part@.len(),
                    flat@ == entries(pv.take(i as int)) + part@.take(j as int).map_values(
                        |n: Note| (i, n),
                    ),
                decreases part@.len() - j,
            {
                flat.push((i, part[j]));
                proof {
                    assert(part@.take(j as int + 1).map_values(|n: Note| (i, n)) =~= part@.take(
                        j as int,
                    ).map_values(|n: Note| (i, n)).push((i, part@[j as int])));
                }
                j += 1;
            }
            proof {
                let next = pv.take(i as int + 1);
                assert(next.drop_last() =~= pv.take(i as int));
                assert(next.last() == part@);
                assert(part@.take(j as int) =~= part@);
                assert(part@.map_values(|n: Note| (i, n)) =~= next.last().map_values(
                    |n: Note| ((next.len() - 1) as usize, n),
                ));
            }
            i += 1;
        }
        proof {
            assert(pv.take(i as int) =~= pv);
        }
        let mut out: Vec<(usize, Note)> = Vec::new();
        let ghost mut order: Seq<int> = Seq::empty();
        let mut i: usize = 0;
        while i < flat.len()
            invariant
                i <= flat@.len(),
                out@.len() == i,
                order.len() == i,
                forall|k: int| 0 <= k < i ==> 0 <= #[trigger] order[k] < i && out@[k] == flat@[order[k]],
                forall|k: int, l: int|
                    #![trigger out@[k], out@[l]]
                    0 <= k < l < i ==> entry_start(out@[k]) < entry_start(out@[l]) || (entry_start(
                        out@[k],
                    ) == entry_start(out@[l]) && order[k] < order[l]),
            decreases flat@.len() - i,
        {
            let e = flat[i];
            let key = e.1.start.divs_wide();
            let mut p: usize = out.len();
            while p > 0 && out[p - 1].1.start.divs_wide() > key
                invariant
                    p <= out@.len(),
                    key == entry_start(e),
                    forall|q: int| p <= q < out@.len() ==> entry_start(#[trigger] out@[q]) > key,
                decreases p,
            {
                p -= 1;
            }
            let ghost o = out@;
            let ghost g = order;
            proof {
                assert forall|q: int| 0 <= q < p implies entry_start(#[trigger] o[q]) <= key by {
                    if q < p - 1 {
                        assert(entry_start(o[q]) <= entry_start(o[p - 1]));
                    }
                }
            }
            out.insert(p, e);
            proof {
                order = order.insert(p as int, i as int);
                assert forall|k: int| 0 <= k < i + 1 implies 0 <= #[trigger] order[k] < i + 1 && out@[k]
                    == flat@[order[k]] by {
                    if k < p {
                        assert(out@[k] == o[k]);
                    } else if k > p {
                        assert(out@[k] == o[k - 1]);
                        assert(order[k] == g[k - 1]);
                    }
                }
                assert forall|k: int, l: int|
                    #![trigger out@[k], out@[l]]
                    0 <= k < l < i + 1 implies entry_start(out@[k]) < entry_start(out@[l]) || (
                    entry_start(out@[k]) == entry_start(out@[l]) && order[k] < order[l]) by {
                    if l < p {
                        assert(out@[k] == o[k] && out@[l] == o[l]);
                    } else if l == p {
                        assert(out@[k] == o[k]);
                        assert(g[k] < i);
                    } else if k < p {
                        assert(out@[k] == o[k] && out@[l] == o[l - 1]);
                        assert(order[l] == g[l - 1]);
                    } else if k == p {
                        assert(out@[l] == o[l - 1]);
                    } else {
                        assert(out@[k] == o[k - 1] && out@[l] == o[l - 1]);
                        assert(order[k] == g[k - 1] && order[l] == g[l - 1]);
                    }
                }
            }
            i += 1;
        }
        proof {
            assert(orders_by_start(entries(pv), out@, order));
            assert forall|k: int, l: int| 0 <= k <= l < out@.len() implies entry_start(
                #[trigger] out@[k],
            ) <= entry_start(#[trigger] out@[l]) by {
                if k < l {
                    assert(entry_start(out@[k]) <= entry_start(out@[l]));
                }
            }
        }
        out
    }

}

} // verus!
