//! The edit and append flows: resolve the current note of a category and,
//! when it does not exist yet, roll it from its predecessor first. These
//! functions decide from plain inputs and return a plan of filesystem writes;
//! the binary carries the plan out.

use vstd::prelude::*;

use crate::cli::{AppendArgs, EditArgs};
use crate::config::Config;
use crate::date::NoteDate;
use crate::roll::{roll_note, transform_spec, RollError};
use crate::utils::{current_note_path_spec, header_spec, resolve_current_note};

verus! {

/// The words of an appended line, joined by single spaces.
pub open spec fn join_spaces(ws: Seq<Seq<u8>>) -> Seq<u8>
    decreases ws.len(),
{
    if ws.len() == 0 {
        Seq::empty()
    } else if ws.len() == 1 {
        ws[0]
    } else {
        ws[0] + seq![' ' as u8] + join_spaces(ws.skip(1))
    }
}

/// How `join_spaces` grows when one more word is appended.
proof fn lemma_join_spaces_push(ws: Seq<Seq<u8>>, w: Seq<u8>)
    ensures
        join_spaces(ws.push(w)) == if ws.len() == 0 {
            w
        } else {
            join_spaces(ws) + seq![' ' as u8] + w
        },
    decreases ws.len(),
{
    if ws.len() == 0 {
        assert(ws.push(w).len() == 1);
        assert(ws.push(w)[0] == w);
    } else {
        assert(ws.push(w).skip(1) =~= ws.skip(1).push(w));
        lemma_join_spaces_push(ws.skip(1), w);
        assert(ws.push(w)[0] == ws[0]);
        if ws.len() == 1 {
            assert(ws.skip(1).len() == 0);
            assert(join_spaces(ws) == ws[0]);
        } else {
            assert(join_spaces(ws) + seq![' ' as u8] + w =~= ws[0] + seq![' ' as u8] + (
            join_spaces(ws.skip(1)) + seq![' ' as u8] + w));
        }
    }
}

/// Joins words with single spaces.
fn join_words(words: &Vec<Vec<u8>>) -> (r: Vec<u8>)
    ensures
        r@ == join_spaces(words.deep_view()),
{
    let ghost wdv = words.deep_view();
    proof {
        assert forall|k: int| 0 <= k < wdv.len() implies wdv[k] == words@[k]@ by {
            assert(wdv[k] =~= words@[k]@);
        }
        assert(wdv.take(0) =~= Seq::<Seq<u8>>::empty());
    }
    let mut out: Vec<u8> = Vec::new();
    let mut i: usize = 0;
    while i < words.len()
        invariant
            0 <= i <= wdv.len(),
            wdv == words.deep_view(),
            wdv.len() == words@.len(),
            forall|k: int| 0 <= k < wdv.len() ==> wdv[k] == words@[k]@,
            out@ == join_spaces(wdv.take(i as int)),
        decreases wdv.len() - i,
    {
        proof {
            assert(wdv.take(i as int + 1) =~= wdv.take(i as int).push(wdv[i as int]));
            lemma_join_spaces_push(wdv.take(i as int), wdv[i as int]);
        }
        if i > 0 {
            out.push(' ' as u8);
        }
        crate::lines::push_bytes(&mut out, &words[i]);
        i = i + 1;
    }
    proof {
        assert(wdv.take(wdv.len() as int) =~= wdv);
    }
    out
}

/// What the binary must do to edit the current note: write `write_first` to
/// `note_path` when a roll was needed, then open `note_path` in the editor.
pub struct EditPlan {
    pub note_path: Vec<u8>,
    pub write_first: Option<Vec<u8>>,
}

/// Decides the edit flow for the current note of a category: when the note
/// does not exist yet it is rolled from its predecessor first; when no
/// predecessor exists the flow fails.
pub fn run(
    args: &EditArgs,
    cfg: &Config,
    now: &NoteDate,
    current_exists: bool,
    predecessor: Option<&Vec<u8>>,
) -> (r: Result<EditPlan, RollError>)
    requires
        now.wf(),
    ensures
        r.is_ok() <==> (current_exists || predecessor.is_some()),
        match r {
            Ok(p) => {
                &&& p.note_path@ == current_note_path_spec(cfg.root@, args.note_type, *now)
                &&& (current_exists ==> p.write_first is None)
                &&& (!current_exists ==> (predecessor matches Some(q) && p.write_first
                    matches Some(c) && c@ == transform_spec(q@, header_spec(args.note_type, *now))))
            },
            Err(e) => e == RollError::NoPredecessor && !current_exists && predecessor.is_none(),
        },
{
    let note_path = resolve_current_note(&cfg.root, args.note_type, now);
    if current_exists {
        Ok(EditPlan { note_path, write_first: None })
    } else {
        match roll_note(args.note_type, now, false, predecessor) {
            Ok(c) => Ok(EditPlan { note_path, write_first: Some(c) }),
            Err(e) => Err(e),
        }
    }
}

/// What the binary must do to append a line: write `write_first` to
/// `note_path` when a roll was needed, then append `line` (newline included)
/// to `note_path`.
pub struct AppendPlan {
    pub note_path: Vec<u8>,
    pub write_first: Option<Vec<u8>>,
    pub line: Vec<u8>,
}

/// Decides the append flow: as with editing, a missing current note is rolled
/// from its predecessor first, then the given words are appended as one line.
pub fn append_to_note(
    args: &AppendArgs,
    cfg: &Config,
    now: &NoteDate,
    current_exists: bool,
    predecessor: Option<&Vec<u8>>,
) -> (r: Result<AppendPlan, RollError>)
    requires
        now.wf(),
    ensures
        r.is_ok() <==> (current_exists || predecessor.is_some()),
        match r {
            Ok(p) => {
                &&& p.note_path@ == current_note_path_spec(cfg.root@, args.note_type, *now)
                &&& (current_exists ==> p.write_first is None)
                &&& (!current_exists ==> (predecessor matches Some(q) && p.write_first
                    matches Some(c) && c@ == transform_spec(q@, header_spec(args.note_type, *now))))
                &&& p.line@ == join_spaces(args.content.deep_view()) + seq![10u8]
            },
            Err(e) => e == RollError::NoPredecessor && !current_exists && predecessor.is_none(),
        },
{
    let note_path = resolve_current_note(&cfg.root, args.note_type, now);
    let mut line = join_words(&args.content);
    line.push(10u8);
    if current_exists {
        Ok(AppendPlan { note_path, write_first: None, line })
    } else {
        match roll_note(args.note_type, now, false, predecessor) {
            Ok(c) => Ok(AppendPlan { note_path, write_first: Some(c), line }),
            Err(e) => Err(e),
        }
    }
}

} // verus!
