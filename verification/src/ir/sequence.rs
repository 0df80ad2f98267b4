//! Sequence diagram model: participants (columns) and a linear list of items
//! (rows). Column positions are assigned by the renderer.

use vstd::prelude::*;
use crate::text::{chars_of, eq_of, string_of};

verus! {

/// Index of a participant in `SequenceDiagram::participants`.
#[derive(Debug, Clone, Copy, PartialEq, Eq, Structural)]
pub struct ParticipantId(pub u32);

impl ParticipantId {
    pub fn index(self) -> (r: usize)
        ensures
            r == self.0,
    {
        self.0 as usize
    }
}

#[derive(Debug, Clone)]
pub struct Participant {
    /// Short name used in message lines (`C` in `participant C as Client`).
    pub name: String,
    /// Display label (`Client`); multi-line via `\n`.
    pub label: String,
    /// Actor (stick figure) instead of a box.
    pub is_actor: bool,
}

pub struct ParticipantV {
    pub name: Seq<char>,
    pub label: Seq<char>,
    pub is_actor: bool,
}

impl View for Participant {
    type V = ParticipantV;

    open spec fn view(&self) -> ParticipantV {
        ParticipantV { name: self.name@, label: self.label@, is_actor: self.is_actor }
    }
}

/// Arrow styles: `->>` solid arrow, `-->>` dashed arrow, `-x`/`--x` cross
/// (lost message), `->`/`-->` open line.
#[derive(Debug, Clone, Copy, PartialEq, Eq, Structural)]
pub enum SeqArrow {
    Solid,
    SolidOpen,
    Dashed,
    DashedOpen,
    SolidCross,
    DashedCross,
}

#[derive(Debug, Clone)]
pub struct SeqMessage {
    pub from: ParticipantId,
    pub to: ParticipantId,
    pub arrow: SeqArrow,
    pub text: String,
    /// `+` after the arrow: activate the target.
    pub activate: bool,
    /// `-` after the arrow: deactivate the source.
    pub deactivate: bool,
    /// Sequence number when `autonumber` is on.
    pub number: Option<u32>,
}

pub struct MessageV {
    pub from: ParticipantId,
    pub to: ParticipantId,
    pub arrow: SeqArrow,
    pub text: Seq<char>,
    pub activate: bool,
    pub deactivate: bool,
    pub number: Option<u32>,
}

impl View for SeqMessage {
    type V = MessageV;

    open spec fn view(&self) -> MessageV {
        MessageV {
            from: self.from,
            to: self.to,
            arrow: self.arrow,
            text: self.text@,
            activate: self.activate,
            deactivate: self.deactivate,
            number: self.number,
        }
    }
}

#[derive(Debug, Clone, Copy, PartialEq, Eq, Structural)]
pub enum NotePosition {
    LeftOf,
    RightOf,
    Over,
}

#[derive(Debug)]
pub struct SeqNote {
    pub position: NotePosition,
    /// One participant, or two for `Note over A,B`.
    pub anchors: (ParticipantId, Option<ParticipantId>),
    pub text: String,
}

pub struct NoteV {
    pub position: NotePosition,
    pub anchors: (ParticipantId, Option<ParticipantId>),
    pub text: Seq<char>,
}

impl View for SeqNote {
    type V = NoteV;

    open spec fn view(&self) -> NoteV {
        NoteV { position: self.position, anchors: self.anchors, text: self.text@ }
    }
}

/// Framed fragment kinds (`loop`, `alt`, `opt`, `par`, plain `rect`).
#[derive(Debug, Clone)]
pub enum FrameKind {
    Loop,
    Alt,
    Opt,
    Par,
    /// `rect rgb(...)` background block; carries its fill color.
    Rect { fill: String },
}

pub enum FrameKindV {
    Loop,
    Alt,
    Opt,
    Par,
    Rect { fill: Seq<char> },
}

impl View for FrameKind {
    type V = FrameKindV;

    open spec fn view(&self) -> FrameKindV {
        match self {
            FrameKind::Loop => FrameKindV::Loop,
            FrameKind::Alt => FrameKindV::Alt,
            FrameKind::Opt => FrameKindV::Opt,
            FrameKind::Par => FrameKindV::Par,
            FrameKind::Rect { fill } => FrameKindV::Rect { fill: fill@ },
        }
    }
}

#[derive(Debug)]
pub enum SeqItem {
    Message(SeqMessage),
    Note(SeqNote),
    /// `loop label` / `alt label` / `rect rgb(..)`: opens a frame.
    FrameStart { kind: FrameKind, label: String },
    /// `else label` divider inside an `alt`/`par` frame.
    FrameElse { label: String },
    /// `end`.
    FrameEnd,
    /// Explicit `activate A`.
    Activate(ParticipantId),
    /// Explicit `deactivate A`.
    Deactivate(ParticipantId),
}

pub enum SeqItemV {
    Message(MessageV),
    Note(NoteV),
    FrameStart { kind: FrameKindV, label: Seq<char> },
    FrameElse { label: Seq<char> },
    FrameEnd,
    Activate(ParticipantId),
    Deactivate(ParticipantId),
}

impl View for SeqItem {
    type V = SeqItemV;

    open spec fn view(&self) -> SeqItemV {
        match self {
            SeqItem::Message(m) => SeqItemV::Message(m@),
            SeqItem::Note(n) => SeqItemV::Note(n@),
            SeqItem::FrameStart { kind, label } => SeqItemV::FrameStart { kind: kind@, label: label@ },
            SeqItem::FrameElse { label } => SeqItemV::FrameElse { label: label@ },
            SeqItem::FrameEnd => SeqItemV::FrameEnd,
            SeqItem::Activate(p) => SeqItemV::Activate(*p),
            SeqItem::Deactivate(p) => SeqItemV::Deactivate(*p),
        }
    }
}

#[derive(Debug)]
pub struct SequenceDiagram {
    pub participants: Vec<Participant>,
    pub items: Vec<SeqItem>,
    pub autonumber: bool,
}

pub struct SequenceV {
    pub participants: Seq<ParticipantV>,
    pub items: Seq<SeqItemV>,
    pub autonumber: bool,
}

impl View for SequenceDiagram {
    type V = SequenceV;

    open spec fn view(&self) -> SequenceV {
        SequenceV {
            participants: self.participants@.map_values(|p: Participant| p@),
            items: self.items@.map_values(|i: SeqItem| i@),
            autonumber: self.autonumber,
        }
    }
}

/// First index at or after `i` of a participant named `name`.
pub open spec fn participant_index(ps: Seq<ParticipantV>, name: Seq<char>, i: int) -> Option<int>
    decreases ps.len() - i,
{
    if i < 0 || i >= ps.len() {
        None
    } else if ps[i].name == name {
        Some(i)
    } else {
        participant_index(ps, name, i + 1)
    }
}

pub proof fn lemma_participant_index(ps: Seq<ParticipantV>, name: Seq<char>, i: int)
    requires
        0 <= i,
    ensures
        participant_index(ps, name, i) matches Some(k) ==> i <= k < ps.len() && ps[k].name == name,
    decreases ps.len() - i,
{
    if i < ps.len() && ps[i].name != name {
        lemma_participant_index(ps, name, i + 1);
    }
}

/// Participants after looking `name` up, creating it (label = name, boxed)
/// on first use, and the id found or created.
pub open spec fn intern_spec(ps: Seq<ParticipantV>, name: Seq<char>) -> (Seq<ParticipantV>, ParticipantId) {
    match participant_index(ps, name, 0) {
        Some(i) => (ps, ParticipantId(i as u32)),
        None => (
            ps.push(ParticipantV { name, label: name, is_actor: false }),
            ParticipantId(ps.len() as u32),
        ),
    }
}

impl SequenceDiagram {
    pub fn new() -> (r: SequenceDiagram)
        ensures
            r@ == (SequenceV { participants: seq![], items: seq![], autonumber: false }),
    {
        let d = SequenceDiagram { participants: Vec::new(), items: Vec::new(), autonumber: false };
        assert(d@.participants =~= Seq::<ParticipantV>::empty());
        assert(d@.items =~= Seq::<SeqItemV>::empty());
        d
    }

    pub(crate) fn find_participant(&self, name: &[char]) -> (r: Option<usize>)
        ensures
            participant_index(self@.participants, name@, 0) == (match r {
                Some(i) => Some(i as int),
                None => None,
            }),
            r matches Some(i) ==> i < self@.participants.len(),
    {
        proof {
            lemma_participant_index(self@.participants, name@, 0);
        }
        let mut i: usize = 0;
        while i < self.participants.len()
            invariant
                i <= self.participants@.len(),
                participant_index(self@.participants, name@, 0) == participant_index(
                    self@.participants,
                    name@,
                    i as int,
                ),
            decreases self.participants@.len() - i,
        {
            assert(self@.participants[i as int] == self.participants@[i as int]@);
            if eq_of(&chars_of(self.participants[i].name.as_str()), name) {
                return Some(i);
            }
            i += 1;
        }
        None
    }

    /// The participant with this name, if declared.
    pub fn participant_by_name(&self, name: &str) -> (r: Option<ParticipantId>)
        ensures
            r == (match participant_index(self@.participants, name@, 0) {
                Some(i) => Some(ParticipantId(i as u32)),
                None => None,
            }),
    {
        match self.find_participant(&chars_of(name)) {
            Some(i) => Some(ParticipantId(#[verifier::truncate] (i as u32))),
            None => None,
        }
    }

    pub(crate) fn intern_chars(&mut self, name: &[char]) -> (id: ParticipantId)
        ensures
            (final(self)@.participants, id) == intern_spec(old(self)@.participants, name@),
            final(self)@.items == old(self)@.items,
            final(self)@.autonumber == old(self)@.autonumber,
            (id.0 as int) < final(self)@.participants.len() || final(self)@.participants.len() > u32::MAX,
    {
        match self.find_participant(name) {
            Some(i) => ParticipantId(#[verifier::truncate] (i as u32)),
            None => {
                let id = ParticipantId(#[verifier::truncate] (self.participants.len() as u32));
                let p = Participant { name: string_of(name), label: string_of(name), is_actor: false };
                self.participants.push(p);
                assert(self@.participants =~= intern_spec(old(self)@.participants, name@).0);
                id
            },
        }
    }

    /// Get-or-create: participants are declared implicitly on first use.
    pub fn intern_participant(&mut self, name: &str) -> (id: ParticipantId)
        ensures
            (final(self)@.participants, id) == intern_spec(old(self)@.participants, name@),
            final(self)@.items == old(self)@.items,
            final(self)@.autonumber == old(self)@.autonumber,
    {
        self.intern_chars(&chars_of(name))
    }
}

} // verus!
