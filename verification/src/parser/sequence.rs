//! Sequence diagram parser: participants and actors, `autonumber`, the six
//! arrow kinds with `+`/`-` activation suffixes, notes, frames, explicit
//! activation, and `<br/>` in any text.

use vstd::prelude::*;
use crate::ir::sequence::{
    intern_spec, FrameKind, FrameKindV, MessageV, NotePosition, NoteV, ParticipantId, ParticipantV,
    SeqArrow, SeqItem, SeqItemV, SeqMessage, SeqNote, SequenceDiagram, SequenceV,
};
use crate::parser::{
    errs_view, lemma_errs_push, lines_view, sanitize_html_label, sanitize_html_label_of, ErrV, Line,
    ParseError,
};
use crate::text::{
    chars_of, concat, eq_of, find, find_of, lemma_find, lemma_find_from_first, lemma_find_from_none,
    lemma_split_by_nonempty, slice_of,
    split_by, split_by_of, split_once, split_once_of, starts_with, starts_with_of, string_of,
    strip_prefix, strip_prefix_of, trim, trim_of, views,
};

verus! {

/// Parser state: the diagram, the message counter, and whether a fatal line
/// was met (HTML label cleanup; see `sanitize_html_label`).
pub struct SeqState {
    pub d: SequenceV,
    pub counter: int,
    pub fatal: bool,
}

/// `st` with `name` interned: new state and the participant's id.
pub open spec fn st_intern(st: SeqState, name: Seq<char>) -> (SeqState, ParticipantId) {
    let (ps, id) = intern_spec(st.d.participants, name);
    (SeqState { d: SequenceV { participants: ps, ..st.d }, ..st }, id)
}

/// `st` with an item appended.
pub open spec fn st_push(st: SeqState, item: SeqItemV) -> SeqState {
    SeqState { d: SequenceV { items: st.d.items.push(item), ..st.d }, ..st }
}

/// `st` with `p` recorded as fatal.
pub open spec fn st_fatal(st: SeqState, p: bool) -> SeqState {
    SeqState { fatal: st.fatal || p, ..st }
}

/// The arrow tokens, longest first within each family.
pub open spec fn arrow_token(i: int) -> (Seq<char>, SeqArrow) {
    if i == 0 {
        ("-->>"@, SeqArrow::Dashed)
    } else if i == 1 {
        ("->>"@, SeqArrow::Solid)
    } else if i == 2 {
        ("--x"@, SeqArrow::DashedCross)
    } else if i == 3 {
        ("-x"@, SeqArrow::SolidCross)
    } else if i == 4 {
        ("-->"@, SeqArrow::DashedOpen)
    } else {
        ("->"@, SeqArrow::SolidOpen)
    }
}

/// Among the first `k` tokens, the earliest occurrence in `line`, the
/// longer token winning at equal positions: (position, token index).
pub open spec fn best_arrow(line: Seq<char>, k: int) -> Option<(int, int)>
    decreases k,
{
    if k <= 0 {
        None
    } else {
        let b = best_arrow(line, k - 1);
        match find(line, arrow_token(k - 1).0) {
            None => b,
            Some(p) => match b {
                None => Some((p, k - 1)),
                Some((bp, bi)) => if p < bp || (p == bp && arrow_token(k - 1).0.len()
                    > arrow_token(bi).0.len()) {
                    Some((p, k - 1))
                } else {
                    b
                },
            },
        }
    }
}

/// `A->>+B: text`: the message, if the line is one, with the state after
/// interning its participants and numbering it.
pub open spec fn seq_message(st: SeqState, line: Seq<char>) -> Option<SeqState> {
    match best_arrow(line, 6) {
        None => None,
        Some((pos, ti)) => {
            let (tok, arrow) = arrow_token(ti);
            let from_name = trim(line.take(pos));
            if from_name.len() == 0 {
                None
            } else {
                let rest0 = line.skip(pos + tok.len());
                let (activate, deactivate, rest) = match strip_prefix(rest0, "+"@) {
                    Some(r) => (true, false, r),
                    None => match strip_prefix(rest0, "-"@) {
                        Some(r) => (false, true, r),
                        None => (false, false, rest0),
                    },
                };
                let (to_name, text) = match split_once(rest, ":"@) {
                    Some((t, x)) => (trim(t), trim(x)),
                    None => (trim(rest), seq![]),
                };
                if to_name.len() == 0 {
                    None
                } else {
                    let (s1, from) = st_intern(st, from_name);
                    let (s2, to) = st_intern(s1, to_name);
                    let overflow = s2.d.autonumber && s2.counter >= u32::MAX;
                    let counter = if s2.d.autonumber {
                        s2.counter + 1
                    } else {
                        s2.counter
                    };
                    let number = if s2.d.autonumber {
                        Some(counter as u32)
                    } else {
                        None
                    };
                    let (t, p) = (sanitize_html_label(text).0, sanitize_html_label(text).2);
                    let msg = MessageV { from, to, arrow, text: t, activate, deactivate, number };
                    Some(st_fatal(st_push(SeqState { counter, ..s2 }, SeqItemV::Message(msg)), p || overflow))
                }
            }
        },
    }
}

/// `Note left of/right of/over A[,B]: text`.
pub open spec fn seq_note(st: SeqState, ln: int, rest: Seq<char>) -> (SeqState, Option<ErrV>) {
    let pos = match strip_prefix(rest, "left of "@) {
        Some(a) => Some((NotePosition::LeftOf, a)),
        None => match strip_prefix(rest, "right of "@) {
            Some(a) => Some((NotePosition::RightOf, a)),
            None => match strip_prefix(rest, "over "@) {
                Some(a) => Some((NotePosition::Over, a)),
                None => None,
            },
        },
    };
    match pos {
        None => (
            st,
            Some(
                ErrV {
                    line: ln,
                    message: "expected 'left of'/'right of'/'over' after Note, got '"@ + rest + "'"@,
                },
            ),
        ),
        Some((position, after)) => match split_once(after, ":"@) {
            None => (st, Some(ErrV { line: ln, message: "Note is missing ': text'"@ })),
            Some((anchors_text, text)) => {
                let names = split_by(anchors_text, ","@);
                let (s1, first) = st_intern(st, trim(names[0]));
                let (s2, second) = if names.len() > 1 {
                    let (s, id) = st_intern(s1, trim(names[1]));
                    (s, Some(id))
                } else {
                    (s1, None)
                };
                let t = trim(text);
                let note = NoteV {
                    position,
                    anchors: (first, second),
                    text: sanitize_html_label(t).0,
                };
                (st_fatal(st_push(s2, SeqItemV::Note(note)), sanitize_html_label(t).2), None)
            },
        },
    }
}

/// A frame opener `loop`/`alt`/`opt`/`par` with its kind and label text.
pub open spec fn frame_open(line: Seq<char>) -> Option<(FrameKindV, Seq<char>)> {
    match strip_prefix(line, "loop"@) {
        Some(r) => Some((FrameKindV::Loop, r)),
        None => match strip_prefix(line, "alt"@) {
            Some(r) => Some((FrameKindV::Alt, r)),
            None => match strip_prefix(line, "opt"@) {
                Some(r) => Some((FrameKindV::Opt, r)),
                None => match strip_prefix(line, "par"@) {
                    Some(r) => Some((FrameKindV::Par, r)),
                    None => None,
                },
            },
        },
    }
}

/// One sequence statement.
pub open spec fn seq_line(st: SeqState, ln: int, line: Seq<char>) -> (SeqState, Option<ErrV>) {
    let decl = match strip_prefix(line, "participant "@) {
        Some(r) => Some(r),
        None => strip_prefix(line, "actor "@),
    };
    let note = match strip_prefix(line, "Note "@) {
        Some(r) => Some(r),
        None => strip_prefix(line, "note "@),
    };
    if line == "autonumber"@ {
        (SeqState { d: SequenceV { autonumber: true, ..st.d }, ..st }, None)
    } else if decl is Some {
        let rest = decl.unwrap();
        let is_actor = starts_with(line, "actor "@);
        let (name, label) = match split_once(rest, " as "@) {
            Some((n, l)) => (trim(n), trim(l)),
            None => (trim(rest), trim(rest)),
        };
        let (s1, id) = st_intern(st, name);
        let ps = s1.d.participants;
        let i = id.0 as int;
        if i < ps.len() {
            let p = ParticipantV { label: sanitize_html_label(label).0, is_actor, ..ps[i] };
            (
                st_fatal(
                    SeqState { d: SequenceV { participants: ps.update(i, p), ..s1.d }, ..s1 },
                    sanitize_html_label(label).2,
                ),
                None,
            )
        } else {
            (st_fatal(s1, true), None)
        }
    } else if note is Some {
        seq_note(st, ln, note.unwrap())
    } else if frame_open(line) is Some {
        let (kind, r) = frame_open(line).unwrap();
        let t = trim(r);
        (
            st_fatal(
                st_push(st, SeqItemV::FrameStart { kind, label: sanitize_html_label(t).0 }),
                sanitize_html_label(t).2,
            ),
            None,
        )
    } else if strip_prefix(line, "else"@) is Some {
        let t = trim(strip_prefix(line, "else"@).unwrap());
        (
            st_fatal(
                st_push(st, SeqItemV::FrameElse { label: sanitize_html_label(t).0 }),
                sanitize_html_label(t).2,
            ),
            None,
        )
    } else if strip_prefix(line, "rect"@) is Some {
        let fill = trim(strip_prefix(line, "rect"@).unwrap());
        (st_push(st, SeqItemV::FrameStart { kind: FrameKindV::Rect { fill }, label: seq![] }), None)
    } else if line == "end"@ {
        (st_push(st, SeqItemV::FrameEnd), None)
    } else if strip_prefix(line, "activate "@) is Some {
        let (s1, id) = st_intern(st, trim(strip_prefix(line, "activate "@).unwrap()));
        (st_push(s1, SeqItemV::Activate(id)), None)
    } else if strip_prefix(line, "deactivate "@) is Some {
        let (s1, id) = st_intern(st, trim(strip_prefix(line, "deactivate "@).unwrap()));
        (st_push(s1, SeqItemV::Deactivate(id)), None)
    } else {
        match seq_message(st, line) {
            Some(s) => (s, None),
            None => (
                st,
                Some(ErrV { line: ln, message: "cannot parse sequence statement '"@ + line + "'"@ }),
            ),
        }
    }
}

/// State and warnings after the first `k` lines (a fatal line ends the parse).
pub open spec fn seq_upto(ls: Seq<(int, Seq<char>)>, k: int) -> (SeqState, Seq<ErrV>)
    decreases k,
{
    if k <= 0 || k > ls.len() {
        (
            SeqState {
                d: SequenceV { participants: seq![], items: seq![], autonumber: false },
                counter: 0,
                fatal: false,
            },
            seq![],
        )
    } else {
        let (st, es) = seq_upto(ls, k - 1);
        if st.fatal {
            (st, es)
        } else {
            let (st2, e) = seq_line(st, ls[k - 1].0, ls[k - 1].1);
            (
                st2,
                match e {
                    Some(x) => es.push(x),
                    None => es,
                },
            )
        }
    }
}

/// Frame openers minus frame ends among `items`.
pub open spec fn frame_balance(items: Seq<SeqItemV>) -> int
    decreases items.len(),
{
    if items.len() == 0 {
        0
    } else {
        frame_balance(items.drop_last()) + match items.last() {
            SeqItemV::FrameStart { .. } => 1int,
            SeqItemV::FrameEnd => -1int,
            _ => 0int,
        }
    }
}

/// The warning for each frame left open at the end.
pub open spec fn unclosed_warning(ls: Seq<(int, Seq<char>)>) -> ErrV {
    ErrV {
        line: if ls.len() > 0 {
            ls.last().0
        } else {
            0
        },
        message: "unclosed frame (loop/alt/opt/par/rect) — auto-closed at end"@,
    }
}

/// Lenient sequence parse: the diagram with every open frame closed at the
/// end, one warning per bad line then one per frame closed, and whether the
/// input is fatal.
pub open spec fn sequence_spec(ls: Seq<(int, Seq<char>)>) -> (SequenceV, Seq<ErrV>, bool) {
    let (st, es) = seq_upto(ls, ls.len() as int);
    let open = frame_balance(st.d.items);
    let k: nat = if open > 0 {
        open as nat
    } else {
        0
    };
    (
        SequenceV { items: st.d.items + Seq::new(k, |i: int| SeqItemV::FrameEnd), ..st.d },
        es + Seq::new(k, |i: int| unclosed_warning(ls)),
        st.fatal,
    )
}

/* ---------------- executable parser ---------------- */

/// The sequence parser's running state.
pub struct SeqParser {
    pub d: SequenceDiagram,
    pub counter: u32,
    pub fatal: bool,
}

impl View for SeqParser {
    type V = SeqState;

    open spec fn view(&self) -> SeqState {
        SeqState { d: self.d@, counter: self.counter as int, fatal: self.fatal }
    }
}

/// Arrows drawn with a dashed line.
pub open spec fn arrow_dashed(a: SeqArrow) -> bool {
    a == SeqArrow::Dashed || a == SeqArrow::DashedOpen || a == SeqArrow::DashedCross
}

/// Arrows that end in a cross.
pub open spec fn arrow_cross(a: SeqArrow) -> bool {
    a == SeqArrow::SolidCross || a == SeqArrow::DashedCross
}

/// Arrows that end in an open head.
pub open spec fn arrow_open(a: SeqArrow) -> bool {
    a == SeqArrow::SolidOpen || a == SeqArrow::DashedOpen
}

/// Each message token names its arrow by its shape: a `--` line is dashed,
/// a single `-` solid; a final `x` is a cross, a single final `>` an open
/// head, and `>>` a filled head.
pub proof fn law_arrow_token_shape(i: int)
    requires
        0 <= i < 6,
    ensures
        ({
            let (tok, a) = arrow_token(i);
            &&& tok.len() >= 2
            &&& tok[0] == '-'
            &&& arrow_dashed(a) <==> tok[1] == '-'
            &&& arrow_cross(a) <==> tok.last() == 'x'
            &&& arrow_open(a) <==> (tok.last() == '>' && tok[tok.len() - 2] != '>')
        }),
{
    reveal_strlit("-->>");
    reveal_strlit("->>");
    reveal_strlit("--x");
    reveal_strlit("-x");
    reveal_strlit("-->");
    reveal_strlit("->");
    assert("-->>"@ =~= seq!['-', '-', '>', '>']);
    assert("->>"@ =~= seq!['-', '>', '>']);
    assert("--x"@ =~= seq!['-', '-', 'x']);
    assert("-x"@ =~= seq!['-', 'x']);
    assert("-->"@ =~= seq!['-', '-', '>']);
    assert("->"@ =~= seq!['-', '>']);
}

proof fn lemma_best_arrow_found(line: Seq<char>, k: int)
    ensures
        best_arrow(line, k) matches Some((p, i)) ==> 0 <= i < k && find(line, arrow_token(i).0)
            == Some(p),
    decreases k,
{
    if k > 0 {
        lemma_best_arrow_found(line, k - 1);
    }
}

proof fn lemma_best_arrow_min(line: Seq<char>, k: int)
    requires
        0 <= k <= 6,
    ensures
        best_arrow(line, k) matches Some((p, i)) ==> forall|j: int|
            0 <= j < k ==> ((#[trigger] find(line, arrow_token(j).0)) matches Some(q) ==> p < q || (p
                == q && arrow_token(j).0.len() <= arrow_token(i).0.len())),
        best_arrow(line, k) is None ==> forall|j: int|
            0 <= j < k ==> (#[trigger] find(line, arrow_token(j).0)) is None,
    decreases k,
{
    if k > 0 {
        lemma_best_arrow_min(line, k - 1);
        lemma_best_arrow_found(line, k - 1);
    }
}

/// A parsed message line adds one message. Its arrow is the kind of the
/// token written first in the line (the longest one, where several start
/// at the same place), and a non-empty sender name stands before it.
pub proof fn law_message_arrow_written(st: SeqState, line: Seq<char>)
    ensures
        seq_message(st, line) matches Some(st2) ==> {
            &&& st2.d.items.len() == st.d.items.len() + 1
            &&& st2.d.items.last() matches SeqItemV::Message(msg) && exists|pos: int, i: int|
                0 <= i < 6 && 0 <= pos && pos + arrow_token(i).0.len() <= line.len()
                    && line.subrange(pos, pos + arrow_token(i).0.len()) == arrow_token(i).0
                    && #[trigger] trim(line.take(pos)).len() > 0 && msg.arrow == #[trigger] arrow_token(
                    i,
                ).1 && forall|j: int, q: int|
                    0 <= j < 6 && 0 <= q && q + arrow_token(j).0.len() <= line.len()
                        && #[trigger] line.subrange(q, q + arrow_token(j).0.len()) == arrow_token(j).0
                        ==> pos < q || (pos == q && arrow_token(j).0.len() <= arrow_token(i).0.len())
        },
{
    lemma_best_arrow_found(line, 6);
    lemma_best_arrow_min(line, 6);
    if let Some((pos, ti)) = best_arrow(line, 6) {
        lemma_find(line, arrow_token(ti).0);
        assert forall|j: int, q: int|
            0 <= j < 6 && 0 <= q && q + arrow_token(j).0.len() <= line.len()
                && #[trigger] line.subrange(q, q + arrow_token(j).0.len()) == arrow_token(j).0
                implies pos < q || (pos == q && arrow_token(j).0.len() <= arrow_token(ti).0.len()) by {
            let tj = arrow_token(j).0;
            match find(line, tj) {
                None => {
                    lemma_find_from_none(line, tj, 0, q);
                },
                Some(q2) => {
                    if q < q2 {
                        lemma_find_from_first(line, tj, 0, q);
                    }
                },
            }
        }
    }
}

fn arrow_token_of(i: usize) -> (r: (&'static str, SeqArrow))
    requires
        i < 6,
    ensures
        r.0@ == arrow_token(i as int).0,
        r.1 == arrow_token(i as int).1,
{
    if i == 0 {
        ("-->>", SeqArrow::Dashed)
    } else if i == 1 {
        ("->>", SeqArrow::Solid)
    } else if i == 2 {
        ("--x", SeqArrow::DashedCross)
    } else if i == 3 {
        ("-x", SeqArrow::SolidCross)
    } else if i == 4 {
        ("-->", SeqArrow::DashedOpen)
    } else {
        ("->", SeqArrow::SolidOpen)
    }
}

fn best_arrow_of(line: &[char]) -> (r: Option<(usize, usize)>)
    ensures
        best_arrow(line@, 6) == (match r {
            Some((p, i)) => Some((p as int, i as int)),
            None => None,
        }),
        r matches Some((p, i)) ==> i < 6 && p + arrow_token(i as int).0.len() <= line@.len(),
{
    proof {
        reveal_strlit("-->>");
        reveal_strlit("->>");
        reveal_strlit("--x");
        reveal_strlit("-x");
        reveal_strlit("-->");
        reveal_strlit("->");
    }
    let mut best: Option<(usize, usize)> = None;
    let mut k: usize = 0;
    while k < 6
        invariant
            k <= 6,
            best_arrow(line@, k as int) == (match best {
                Some((p, i)) => Some((p as int, i as int)),
                None => None,
            }),
            best matches Some((p, i)) ==> i < k && p + arrow_token(i as int).0.len() <= line@.len(),
        decreases 6 - k,
    {
        let (tok, _) = arrow_token_of(k);
        let tv = chars_of(tok);
        proof {
            lemma_find(line@, tv@);
        }
        match find_of(line, &tv) {
            None => {},
            Some(p) => {
                match best {
                    None => {
                        best = Some((p, k));
                    },
                    Some((bp, bi)) => {
                        let (btok, _) = arrow_token_of(bi);
                        let blen = chars_of(btok).len();
                        if p < bp || (p == bp && tv.len() > blen) {
                            best = Some((p, k));
                        }
                    },
                }
            },
        }
        k += 1;
    }
    best
}

impl SeqParser {
    fn intern(&mut self, name: &[char]) -> (id: ParticipantId)
        ensures
            (final(self)@, id) == st_intern(old(self)@, name@),
    {
        self.d.intern_chars(name)
    }

    fn push(&mut self, item: SeqItem)
        ensures
            final(self)@ == st_push(old(self)@, item@),
    {
        self.d.items.push(item);
        assert(self@.d.items =~= old(self)@.d.items.push(item@));
    }

    fn message(&mut self, line: &[char]) -> (found: bool)
        requires
            !old(self).fatal,
        ensures
            found <==> seq_message(old(self)@, line@) is Some,
            found ==> final(self).fatal == seq_message(old(self)@, line@).unwrap().fatal,
            found && !final(self).fatal ==> final(self)@ == seq_message(old(self)@, line@).unwrap(),
            !found ==> final(self)@ == old(self)@,
    {
        proof {
            reveal_strlit("+");
            reveal_strlit("-");
            reveal_strlit(":");
        }
        let (pos, ti) = match best_arrow_of(line) {
            Some(b) => b,
            None => return false,
        };
        let (tok, arrow) = arrow_token_of(ti);
        let tlen = chars_of(tok).len();
        let head = slice_of(line, 0, pos);
        let from_name = trim_of(&head);
        if from_name.len() == 0 {
            return false;
        }
        assert(tlen == arrow_token(ti as int).0.len());
        assert(pos + tlen <= line.len());
        let rest0 = slice_of(line, pos + tlen, line.len());
        let (activate, deactivate, rest) = match strip_prefix_of(&rest0, &chars_of("+")) {
            Some(r) => (true, false, r),
            None => match strip_prefix_of(&rest0, &chars_of("-")) {
                Some(r) => (false, true, r),
                None => (false, false, rest0),
            },
        };
        let (to_name, text) = match split_once_of(&rest, &chars_of(":")) {
            Some((t, x)) => (trim_of(&t), trim_of(&x)),
            None => (trim_of(&rest), Vec::new()),
        };
        if to_name.len() == 0 {
            return false;
        }
        let from = self.intern(&from_name);
        let to = self.intern(&to_name);
        if self.d.autonumber && self.counter == u32::MAX {
            self.fatal = true;
            return true;
        }
        let number = if self.d.autonumber {
            self.counter = self.counter + 1;
            Some(self.counter)
        } else {
            None
        };
        let (t, _, p) = sanitize_html_label_of(&text);
        let msg = SeqMessage { from, to, arrow, text: string_of(&t), activate, deactivate, number };
        self.push(SeqItem::Message(msg));
        self.fatal = p;
        true
    }

    fn note(&mut self, ln: usize, rest: &[char]) -> (r: Option<ParseError>)
        requires
            !old(self).fatal,
        ensures
            ({
                let t = seq_note(old(self)@, ln as int, rest@);
                &&& t.1 == (match r {
                    Some(e) => Some(e@),
                    None => None,
                })
                &&& final(self).fatal == t.0.fatal
                &&& !final(self).fatal ==> final(self)@ == t.0
            }),
    {
        proof {
            reveal_strlit("left of ");
            reveal_strlit("right of ");
            reveal_strlit("over ");
            reveal_strlit(":");
            reveal_strlit(",");
            reveal_strlit("expected 'left of'/'right of'/'over' after Note, got '");
            reveal_strlit("'");
            reveal_strlit("Note is missing ': text'");
        }
        let pos = match strip_prefix_of(rest, &chars_of("left of ")) {
            Some(a) => Some((NotePosition::LeftOf, a)),
            None => match strip_prefix_of(rest, &chars_of("right of ")) {
                Some(a) => Some((NotePosition::RightOf, a)),
                None => match strip_prefix_of(rest, &chars_of("over ")) {
                    Some(a) => Some((NotePosition::Over, a)),
                    None => None,
                },
            },
        };
        let (position, after) = match pos {
            Some(x) => x,
            None => {
                let a = concat(&chars_of("expected 'left of'/'right of'/'over' after Note, got '"), rest);
                let m = concat(&a, &chars_of("'"));
                return Some(ParseError::syntax(ln, &m));
            },
        };
        let (anchors_text, text) = match split_once_of(&after, &chars_of(":")) {
            Some(x) => x,
            None => {
                return Some(ParseError::syntax(ln, &chars_of("Note is missing ': text'")));
            },
        };
        proof {
            lemma_split_by_nonempty(anchors_text@, ","@);
        }
        let names = split_by_of(&anchors_text, &chars_of(","));
        assert(views(names@)[0] == names@[0]@);
        let first = self.intern(&trim_of(&names[0]));
        let second = if names.len() > 1 {
            assert(views(names@)[1] == names@[1]@);
            Some(self.intern(&trim_of(&names[1])))
        } else {
            None
        };
        let t = trim_of(&text);
        let (clean, _, p) = sanitize_html_label_of(&t);
        let note = SeqNote { position, anchors: (first, second), text: string_of(&clean) };
        self.push(SeqItem::Note(note));
        self.fatal = p;
        None
    }

    fn declare(&mut self, line: &[char], rest: &[char])
        requires
            !old(self).fatal,
            strip_prefix(line@, "participant "@) == Some(rest@) || (strip_prefix(line@, "participant "@)
                is None && strip_prefix(line@, "actor "@) == Some(rest@)),
        ensures
            ({
                let t = seq_line(old(self)@, 0, line@);
                &&& final(self).fatal == t.0.fatal
                &&& !final(self).fatal ==> final(self)@ == t.0
            }),
    {
        proof {
            reveal_strlit("autonumber");
            reveal_strlit("actor ");
            reveal_strlit(" as ");
            reveal_strlit("participant ");
        }
        assert(line@ != "autonumber"@) by {
            if strip_prefix(line@, "participant "@) is Some {
                assert(line@.take(12) == "participant "@);
                assert(line@.take(12)[0] == 'p');
                assert("autonumber"@[0] == 'a');
            } else {
                assert(line@.take(6) == "actor "@);
                assert(line@.take(6)[1] == 'c');
                assert("autonumber"@[1] == 'u');
            }
        }
        let is_actor = starts_with_of(line, &chars_of("actor "));
        let (name, label) = match split_once_of(rest, &chars_of(" as ")) {
            Some((n, l)) => (trim_of(&n), trim_of(&l)),
            None => (trim_of(rest), trim_of(rest)),
        };
        let id = self.intern(&name);
        let i = id.index();
        if i >= self.d.participants.len() {
            self.fatal = true;
            return;
        }
        let (clean, _, p) = sanitize_html_label_of(&label);
        let pname = string_of(&chars_of(self.d.participants[i].name.as_str()));
        let ghost ps = self.d@.participants;
        self.d.participants.set(
            i,
            crate::ir::sequence::Participant { name: pname, label: string_of(&clean), is_actor },
        );
        assert(self.d@.participants =~= ps.update(
            i as int,
            ParticipantV { label: clean@, is_actor, ..ps[i as int] },
        ));
        self.fatal = p;
    }

    fn frame_label(&mut self, kind: FrameKind, rest: &[char])
        requires
            !old(self).fatal,
        ensures
            ({
                let t = trim(rest@);
                let n = st_fatal(
                    st_push(old(self)@, SeqItemV::FrameStart { kind: kind@, label: sanitize_html_label(t).0 }),
                    sanitize_html_label(t).2,
                );
                &&& final(self).fatal == n.fatal
                &&& final(self)@ == n
            }),
    {
        let t = trim_of(rest);
        let (clean, _, p) = sanitize_html_label_of(&t);
        self.push(SeqItem::FrameStart { kind, label: string_of(&clean) });
        self.fatal = p;
    }

    /// One statement line; the warning if it cannot be read.
    #[verifier::rlimit(40)]
    pub fn line(&mut self, ln: usize, line: &[char]) -> (r: Option<ParseError>)
        requires
            !old(self).fatal,
        ensures
            ({
                let t = seq_line(old(self)@, ln as int, line@);
                &&& final(self).fatal == t.0.fatal
                &&& !final(self).fatal ==> final(self)@ == t.0 && t.1 == (match r {
                    Some(e) => Some(e@),
                    None => None,
                })
            }),
    {
        proof {
            reveal_strlit("autonumber");
            reveal_strlit("participant ");
            reveal_strlit("actor ");
            reveal_strlit("Note ");
            reveal_strlit("note ");
            reveal_strlit("loop");
            reveal_strlit("alt");
            reveal_strlit("opt");
            reveal_strlit("par");
            reveal_strlit("else");
            reveal_strlit("rect");
            reveal_strlit("end");
            reveal_strlit("activate ");
            reveal_strlit("deactivate ");
            reveal_strlit("cannot parse sequence statement '");
            reveal_strlit("'");
        }
        if eq_of(line, &chars_of("autonumber")) {
            self.d.autonumber = true;
            return None;
        }
        let decl = match strip_prefix_of(line, &chars_of("participant ")) {
            Some(r) => Some(r),
            None => strip_prefix_of(line, &chars_of("actor ")),
        };
        if let Some(rest) = decl {
            self.declare(line, &rest);
            return None;
        }
        let note = match strip_prefix_of(line, &chars_of("Note ")) {
            Some(r) => Some(r),
            None => strip_prefix_of(line, &chars_of("note ")),
        };
        if let Some(rest) = note {
            return self.note(ln, &rest);
        }
        if let Some(r) = strip_prefix_of(line, &chars_of("loop")) {
            self.frame_label(FrameKind::Loop, &r);
            return None;
        }
        if let Some(r) = strip_prefix_of(line, &chars_of("alt")) {
            self.frame_label(FrameKind::Alt, &r);
            return None;
        }
        if let Some(r) = strip_prefix_of(line, &chars_of("opt")) {
            self.frame_label(FrameKind::Opt, &r);
            return None;
        }
        if let Some(r) = strip_prefix_of(line, &chars_of("par")) {
            self.frame_label(FrameKind::Par, &r);
            return None;
        }
        if let Some(r) = strip_prefix_of(line, &chars_of("else")) {
            let t = trim_of(&r);
            let (clean, _, p) = sanitize_html_label_of(&t);
            self.push(SeqItem::FrameElse { label: string_of(&clean) });
            self.fatal = p;
            return None;
        }
        if let Some(r) = strip_prefix_of(line, &chars_of("rect")) {
            let fill = string_of(&trim_of(&r));
            let item = SeqItem::FrameStart { kind: FrameKind::Rect { fill }, label: String::new() };
            assert(item@ == SeqItemV::FrameStart {
                kind: FrameKindV::Rect { fill: trim(r@) },
                label: Seq::<char>::empty(),
            });
            self.push(item);
            return None;
        }
        if eq_of(line, &chars_of("end")) {
            self.push(SeqItem::FrameEnd);
            return None;
        }
        if let Some(r) = strip_prefix_of(line, &chars_of("activate ")) {
            let id = self.intern(&trim_of(&r));
            self.push(SeqItem::Activate(id));
            return None;
        }
        if let Some(r) = strip_prefix_of(line, &chars_of("deactivate ")) {
            let id = self.intern(&trim_of(&r));
            self.push(SeqItem::Deactivate(id));
            return None;
        }
        if self.message(line) {
            return None;
        }
        let a = concat(&chars_of("cannot parse sequence statement '"), line);
        let m = concat(&a, &chars_of("'"));
        Some(ParseError::syntax(ln, &m))
    }
}

proof fn lemma_seq_fatal_sticky(ls: Seq<(int, Seq<char>)>, k: int, k2: int)
    requires
        0 <= k <= k2 <= ls.len(),
        seq_upto(ls, k).0.fatal,
    ensures
        seq_upto(ls, k2) == seq_upto(ls, k),
    decreases k2 - k,
{
    if k < k2 {
        lemma_seq_fatal_sticky(ls, k, k2 - 1);
    }
}

/// Parse the lines of a `sequenceDiagram` (after its header): the diagram,
/// the warnings, and whether these lines are fatal.
pub fn parse_sequence(lines: &Vec<Line>) -> (r: (SequenceDiagram, Vec<ParseError>, bool))
    ensures
        ({
            let t = sequence_spec(lines_view(lines@));
            &&& r.2 == t.2
            &&& !r.2 ==> r.0@ == t.0 && errs_view(r.1@) == t.1
        }),
{
    proof {
        reveal_strlit("unclosed frame (loop/alt/opt/par/rect) — auto-closed at end");
    }
    let ghost ls = lines_view(lines@);
    let mut p = SeqParser { d: SequenceDiagram::new(), counter: 0, fatal: false };
    let mut warnings: Vec<ParseError> = Vec::new();
    let mut i: usize = 0;
    while i < lines.len()
        invariant
            i <= lines@.len(),
            ls == lines_view(lines@),
            !p.fatal,
            seq_upto(ls, i as int) == (p@, errs_view(warnings@)),
        decreases lines@.len() - i,
    {
        assert(ls[i as int] == (lines@[i as int].0 as int, lines@[i as int].1@));
        let e = p.line(lines[i].0, &lines[i].1);
        if p.fatal {
            proof {
                lemma_seq_fatal_sticky(ls, i + 1, ls.len() as int);
            }
            return (p.d, warnings, true);
        }
        match e {
            Some(e) => {
                proof {
                    lemma_errs_push(warnings@, e);
                }
                warnings.push(e);
            },
            None => {},
        }
        i += 1;
    }
    let ghost items0 = p@.d.items;
    let ghost es0 = errs_view(warnings@);
    let mut balance: i128 = 0;
    let mut k: usize = 0;
    while k < p.d.items.len()
        invariant
            k <= p.d.items@.len(),
            items0 == p@.d.items,
            balance == frame_balance(items0.take(k as int)),
            -(k as int) <= balance <= k,
        decreases p.d.items@.len() - k,
    {
        assert(items0.take(k + 1).drop_last() == items0.take(k as int));
        assert(items0[k as int] == p.d.items@[k as int]@);
        match &p.d.items[k] {
            SeqItem::FrameStart { .. } => {
                balance = balance + 1;
            },
            SeqItem::FrameEnd => {
                balance = balance - 1;
            },
            _ => {},
        }
        k += 1;
    }
    assert(items0.take(items0.len() as int) == items0);
    let last_ln: usize = if lines.len() > 0 {
        lines[lines.len() - 1].0
    } else {
        0
    };
    assert(unclosed_warning(ls).line == last_ln);
    let mut j: i128 = 0;
    while j < balance
        invariant
            0 <= j,
            j <= (if balance > 0 {
                balance
            } else {
                0
            }),
            balance == frame_balance(items0),
            items0 == seq_upto(ls, ls.len() as int).0.d.items,
            es0 == seq_upto(ls, ls.len() as int).1,
            !p.fatal,
            p@.d.participants == seq_upto(ls, ls.len() as int).0.d.participants,
            p@.d.autonumber == seq_upto(ls, ls.len() as int).0.d.autonumber,
            p@.d.items == items0 + Seq::new(j as nat, |i: int| SeqItemV::FrameEnd),
            errs_view(warnings@) == es0 + Seq::new(j as nat, |i: int| unclosed_warning(ls)),
            unclosed_warning(ls).line == last_ln,
        decreases balance - j,
    {
        p.push(SeqItem::FrameEnd);
        let e = ParseError::syntax(
            last_ln,
            &chars_of("unclosed frame (loop/alt/opt/par/rect) — auto-closed at end"),
        );
        proof {
            lemma_errs_push(warnings@, e);
        }
        warnings.push(e);
        assert(items0 + Seq::new((j + 1) as nat, |i: int| SeqItemV::FrameEnd) =~= (items0 + Seq::new(
            j as nat,
            |i: int| SeqItemV::FrameEnd,
        )).push(SeqItemV::FrameEnd));
        assert(es0 + Seq::new((j + 1) as nat, |i: int| unclosed_warning(ls)) =~= (es0 + Seq::new(
            j as nat,
            |i: int| unclosed_warning(ls),
        )).push(unclosed_warning(ls)));
        j += 1;
    }
    proof {
        let t = sequence_spec(ls);
        assert(p@.d.items =~= t.0.items);
        assert(errs_view(warnings@) =~= t.1);
    }
    (p.d, warnings, false)
}

proof fn lemma_balance_append_ends(items: Seq<SeqItemV>, k: nat)
    ensures
        frame_balance(items + Seq::new(k, |i: int| SeqItemV::FrameEnd)) == frame_balance(items) - k,
    decreases k,
{
    let s = items + Seq::new(k, |i: int| SeqItemV::FrameEnd);
    if k > 0 {
        let s1 = items + Seq::new((k - 1) as nat, |i: int| SeqItemV::FrameEnd);
        assert(s.drop_last() =~= s1);
        lemma_balance_append_ends(items, (k - 1) as nat);
    } else {
        assert(s =~= items);
    }
}

/// Every frame a parsed sequence diagram opens is closed: frames left open
/// at the end are closed there (with a warning each), so the openers never
/// outnumber the `end`s.
pub proof fn law_frames_closed(ls: Seq<(int, Seq<char>)>)
    ensures
        frame_balance(sequence_spec(ls).0.items) <= 0,
{
    let (st, es) = seq_upto(ls, ls.len() as int);
    let open = frame_balance(st.d.items);
    let k: nat = if open > 0 {
        open as nat
    } else {
        0
    };
    lemma_balance_append_ends(st.d.items, k);
}

} // verus!
