//! The program text under construction and the report that goes with it.

use crate::text;
use crate::text::join;
use vstd::prelude::*;

verus! {

/// What kind of thing a loss note reports.
#[derive(Clone, Copy, PartialEq, Eq, Structural, Debug)]
pub enum LossKind {
    ParametricRecordOmitted,
    CarrierSummary,
}

/// What a [`LossNote`] holds.
#[verifier::ext_equal]
pub struct LossView {
    pub kind: LossKind,
    pub message: Seq<char>,
}

/// Something the export leaves out.
pub struct LossNote {
    pub kind: LossKind,
    pub message: String,
}

impl View for LossNote {
    type V = LossView;

    open spec fn view(&self) -> LossView {
        LossView { kind: self.kind, message: self.message@ }
    }
}

/// What some loss notes hold.
pub open spec fn loss_views(losses: Seq<LossNote>) -> Seq<LossView> {
    losses.map_values(|loss: LossNote| loss@)
}

/// A note that a record is left out.
pub open spec fn omitted(message: Seq<char>) -> LossView {
    LossView { kind: LossKind::ParametricRecordOmitted, message }
}

/// What is counted.
#[derive(Clone, Copy, PartialEq, Eq, Structural, Debug)]
pub enum CountKey {
    Extrudes,
    Features,
    Fillets,
    Sketches,
}

/// How much of each kind was written.
#[derive(Clone, Copy, PartialEq, Eq, Structural, Debug)]
pub struct Counts {
    pub extrudes: usize,
    pub features: usize,
    pub fillets: usize,
    pub sketches: usize,
}

/// One entry, unless its count is zero.
pub open spec fn counted(name: Seq<char>, count: usize) -> Seq<(Seq<char>, usize)> {
    if count > 0 {
        seq![(name, count)]
    } else {
        Seq::empty()
    }
}

impl Counts {
    /// The counts that are not zero, by name and in the order of their names.
    pub open spec fn named(self) -> Seq<(Seq<char>, usize)> {
        counted("extrudes"@, self.extrudes) + counted("features"@, self.features) + counted(
            "fillets"@,
            self.fillets,
        ) + counted("sketches"@, self.sketches)
    }

    /// The counts that are not zero, by name and in the order of their names.
    pub fn entries(&self) -> (r: Vec<(String, usize)>)
        ensures
            r@.map_values(|entry: (String, usize)| (entry.0@, entry.1)) == self.named(),
    {
        let mut out: Vec<(String, usize)> = Vec::new();
        if self.extrudes > 0 {
            out.push(("extrudes".to_owned(), self.extrudes));
        }
        if self.features > 0 {
            out.push(("features".to_owned(), self.features));
        }
        if self.fillets > 0 {
            out.push(("fillets".to_owned(), self.fillets));
        }
        if self.sketches > 0 {
            out.push(("sketches".to_owned(), self.sketches));
        }
        assert(out@.map_values(|entry: (String, usize)| (entry.0@, entry.1)) =~= self.named());
        out
    }
}

/// What a [`Program`] holds.
#[verifier::ext_equal]
pub struct ProgramView {
    pub lines: Seq<Seq<char>>,
    pub losses: Seq<LossView>,
    pub extrudes: int,
    pub features: int,
    pub fillets: int,
    pub sketches: int,
    pub sketch_seq: int,
    pub blend_seq: int,
    pub bodies_started: int,
}

/// A line of the builder's body: indented, unless it is empty.
pub open spec fn indented(line: Seq<char>) -> Seq<char> {
    if line.len() == 0 {
        line
    } else {
        "    "@ + line
    }
}

impl ProgramView {
    /// With a line added.
    pub open spec fn line(self, line: Seq<char>) -> ProgramView {
        ProgramView { lines: self.lines.push(line), ..self }
    }

    /// With a line of the builder's body added.
    pub open spec fn body_line(self, line: Seq<char>) -> ProgramView {
        self.line(indented(line))
    }

    /// With a loss note added.
    pub open spec fn loss(self, note: LossView) -> ProgramView {
        ProgramView { losses: self.losses.push(note), ..self }
    }

    /// With one more of a kind.
    pub open spec fn one_more(self, key: CountKey) -> ProgramView {
        match key {
            CountKey::Extrudes => ProgramView { extrudes: self.extrudes + 1, ..self },
            CountKey::Features => ProgramView { features: self.features + 1, ..self },
            CountKey::Fillets => ProgramView { fillets: self.fillets + 1, ..self },
            CountKey::Sketches => ProgramView { sketches: self.sketches + 1, ..self },
        }
    }

    /// How many of a kind there are.
    pub open spec fn tally(self, key: CountKey) -> int {
        match key {
            CountKey::Extrudes => self.extrudes,
            CountKey::Features => self.features,
            CountKey::Fillets => self.fillets,
            CountKey::Sketches => self.sketches,
        }
    }

    /// With the name of the next sketch used up.
    pub open spec fn next_sketch(self) -> ProgramView {
        ProgramView { sketch_seq: self.sketch_seq + 1, ..self }
    }

    /// With the name of the next blend used up.
    pub open spec fn next_blend(self) -> ProgramView {
        ProgramView { blend_seq: self.blend_seq + 1, ..self }
    }

    /// With one more body started.
    pub open spec fn next_body(self) -> ProgramView {
        ProgramView { bodies_started: self.bodies_started + 1, ..self }
    }

    /// Whether a counter can go up `n` times: it is behind the lines written, of
    /// which every step adds one, or the numbers reach that far.
    pub open spec fn spare(self, counter: int, n: int) -> bool {
        counter < self.lines.len() || counter + n <= usize::MAX
    }

    /// Whether every counter can go up `n` times.
    pub open spec fn admits(self, n: int) -> bool {
        &&& self.spare(self.extrudes, n)
        &&& self.spare(self.features, n)
        &&& self.spare(self.fillets, n)
        &&& self.spare(self.sketches, n)
        &&& self.spare(self.sketch_seq, n)
        &&& self.spare(self.blend_seq, n)
        &&& self.spare(self.bodies_started, n)
    }

    /// No counter runs ahead of the lines written.
    pub open spec fn keeps_up(self) -> bool {
        &&& self.extrudes <= self.lines.len()
        &&& self.features <= self.lines.len()
        &&& self.fillets <= self.lines.len()
        &&& self.sketches <= self.lines.len()
        &&& self.sketch_seq <= self.lines.len()
        &&& self.blend_seq <= self.lines.len()
        &&& self.bodies_started <= self.lines.len()
    }

    /// Every counter is behind the lines written.
    pub open spec fn has_room(self) -> bool {
        &&& self.extrudes < self.lines.len()
        &&& self.features < self.lines.len()
        &&& self.fillets < self.lines.len()
        &&& self.sketches < self.lines.len()
        &&& self.sketch_seq < self.lines.len()
        &&& self.blend_seq < self.lines.len()
        &&& self.bodies_started < self.lines.len()
    }

    /// Only lines and notes were added since.
    pub open spec fn counts_as(self, before: ProgramView) -> bool {
        &&& self.lines.len() >= before.lines.len()
        &&& self.extrudes == before.extrudes
        &&& self.features == before.features
        &&& self.fillets == before.fillets
        &&& self.sketches == before.sketches
        &&& self.sketch_seq == before.sketch_seq
        &&& self.blend_seq == before.blend_seq
        &&& self.bodies_started == before.bodies_started
    }

    /// The text of the program.
    pub open spec fn text(self) -> Seq<char> {
        text::joined(self.lines, "\n"@, self.lines.len() as int)
    }

    /// An empty program.
    pub open spec fn empty() -> ProgramView {
        ProgramView {
            lines: Seq::empty(),
            losses: Seq::empty(),
            extrudes: 0,
            features: 0,
            fillets: 0,
            sketches: 0,
            sketch_seq: 0,
            blend_seq: 0,
            bodies_started: 0,
        }
    }
}

/// A program under construction.
pub struct Program {
    pub lines: Vec<String>,
    pub losses: Vec<LossNote>,
    pub counts: Counts,
    pub sketch_seq: usize,
    pub blend_seq: usize,
    pub bodies_started: usize,
}

impl View for Program {
    type V = ProgramView;

    open spec fn view(&self) -> ProgramView {
        ProgramView {
            lines: text::views(self.lines@),
            losses: loss_views(self.losses@),
            extrudes: self.counts.extrudes as int,
            features: self.counts.features as int,
            fillets: self.counts.fillets as int,
            sketches: self.counts.sketches as int,
            sketch_seq: self.sketch_seq as int,
            blend_seq: self.blend_seq as int,
            bodies_started: self.bodies_started as int,
        }
    }
}

impl Program {
    /// An empty program.
    pub fn new() -> (r: Self)
        ensures
            r@ == ProgramView::empty(),
    {
        let r = Program {
            lines: Vec::new(),
            losses: Vec::new(),
            counts: Counts { extrudes: 0, features: 0, fillets: 0, sketches: 0 },
            sketch_seq: 0,
            blend_seq: 0,
            bodies_started: 0,
        };
        assert(r@ =~= ProgramView::empty());
        r
    }

    /// Adds a line.
    pub fn push(&mut self, line: &str)
        ensures
            final(self)@ == old(self)@.line(line@),
    {
        let ghost before = self@;
        self.lines.push(line.to_owned());
        assert(text::views(self.lines@) =~= before.lines.push(line@));
        assert(self@ =~= before.line(line@));
    }

    /// Adds a line of the builder's body.
    pub fn body(&mut self, line: &str)
        ensures
            final(self)@ == old(self)@.body_line(line@),
    {
        if line.is_empty() {
            self.push(line);
        } else {
            let mut text = "    ".to_owned();
            text.append(line);
            self.push(text.as_str());
        }
    }

    /// Adds a loss note.
    pub fn note(&mut self, kind: LossKind, message: String)
        ensures
            final(self)@ == old(self)@.loss(LossView { kind, message: message@ }),
    {
        let ghost before = self@;
        let ghost note = LossView { kind, message: message@ };
        self.losses.push(LossNote { kind, message });
        assert(loss_views(self.losses@) =~= before.losses.push(note));
        assert(self@ =~= before.loss(note));
    }

    /// Counts one more of a kind.
    pub fn count(&mut self, key: CountKey)
        requires
            old(self)@.spare(old(self)@.tally(key), 1),
        ensures
            final(self)@ == old(self)@.one_more(key),
    {
        let ghost before = self@;
        assert(self.lines.len() == before.lines.len());
        match key {
            CountKey::Extrudes => {
                self.counts.extrudes = self.counts.extrudes + 1;
            },
            CountKey::Features => {
                self.counts.features = self.counts.features + 1;
            },
            CountKey::Fillets => {
                self.counts.fillets = self.counts.fillets + 1;
            },
            CountKey::Sketches => {
                self.counts.sketches = self.counts.sketches + 1;
            },
        }
        assert(self@ =~= before.one_more(key));
    }

    /// Uses up the name of the next sketch.
    pub fn advance_sketch(&mut self)
        requires
            old(self)@.spare(old(self)@.sketch_seq, 1),
        ensures
            final(self)@ == old(self)@.next_sketch(),
    {
        let ghost before = self@;
        assert(self.lines.len() == before.lines.len());
        self.sketch_seq = self.sketch_seq + 1;
        assert(self@ =~= before.next_sketch());
    }

    /// Uses up the name of the next blend.
    pub fn advance_blend(&mut self)
        requires
            old(self)@.spare(old(self)@.blend_seq, 1),
        ensures
            final(self)@ == old(self)@.next_blend(),
    {
        let ghost before = self@;
        assert(self.lines.len() == before.lines.len());
        self.blend_seq = self.blend_seq + 1;
        assert(self@ =~= before.next_blend());
    }

    /// Starts one more body.
    pub fn advance_body(&mut self)
        requires
            old(self)@.spare(old(self)@.bodies_started, 1),
        ensures
            final(self)@ == old(self)@.next_body(),
    {
        let ghost before = self@;
        assert(self.lines.len() == before.lines.len());
        self.bodies_started = self.bodies_started + 1;
        assert(self@ =~= before.next_body());
    }

    /// The text of the program.
    pub fn text(&self) -> (r: String)
        ensures
            r@ == self@.text(),
    {
        join(&self.lines, "\n")
    }
}

} // verus!
