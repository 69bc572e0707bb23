//! The roll engine: carrying a note's unfinished content forward into the
//! current period's note. Rolling is create-only — it decides from plain
//! inputs (does the current note exist, what does the predecessor hold) and
//! returns the content of the new note; it never touches the old one.

use vstd::prelude::*;

use crate::cli::NoteType;
use crate::date::NoteDate;
use crate::lines::{
    cat_lines_nl, is_blank, is_blank_line, is_done_line, is_done_task_line, lines_of, push_bytes,
    split_lines, trim_end_bytes, trim_end_spec,
};
use crate::utils::{construct_header, header_spec};

verus! {

/// Why a roll was refused.
#[derive(Clone, Copy, Debug, PartialEq, Eq, Structural)]
pub enum RollError {
    /// The current period's note already exists; rolling never overwrites it.
    AlreadyRolled,
    /// No prior note of the category exists to carry content from.
    NoPredecessor,
}

/// The predecessor's lines after its header: leading blank lines and the
/// first non-blank line (taken to be the old header) are discarded.
pub open spec fn body_after_header(ls: Seq<Seq<u8>>) -> Seq<Seq<u8>>
    decreases ls.len(),
{
    if ls.len() == 0 {
        Seq::empty()
    } else if is_blank(ls[0]) {
        body_after_header(ls.skip(1))
    } else {
        ls.skip(1)
    }
}

/// The lines that survive a roll: completed checklist items are dropped, the
/// rest keep their order.
pub open spec fn drop_done(ls: Seq<Seq<u8>>) -> Seq<Seq<u8>>
    decreases ls.len(),
{
    if ls.len() == 0 {
        Seq::empty()
    } else if is_done_line(ls[0]) {
        drop_done(ls.skip(1))
    } else {
        seq![ls[0]] + drop_done(ls.skip(1))
    }
}

/// The content of a rolled note: the new header (trimmed of trailing
/// whitespace), then every line of the predecessor's body that is not a
/// completed checklist item, in order, each line ending with a newline.
pub open spec fn transform_spec(prev: Seq<u8>, header: Seq<u8>) -> Seq<u8> {
    cat_lines_nl(seq![trim_end_spec(header)] + drop_done(body_after_header(lines_of(prev))))
}

/// When the first `i` lines are blank and line `i` is not, the body is
/// everything after line `i`.
pub proof fn lemma_body_after_header_at(ls: Seq<Seq<u8>>, i: int)
    requires
        0 <= i < ls.len(),
        forall|k: int| 0 <= k < i ==> is_blank(ls[k]),
        !is_blank(ls[i]),
    ensures
        body_after_header(ls) == ls.skip(i + 1),
    decreases i,
{
    if i == 0 {
    } else {
        assert(is_blank(ls[0]));
        lemma_body_after_header_at(ls.skip(1), i - 1);
        assert(ls.skip(1).skip(i) =~= ls.skip(i + 1));
    }
}

/// A note of blank lines only has an empty body.
pub proof fn lemma_body_after_header_all_blank(ls: Seq<Seq<u8>>)
    requires
        forall|k: int| 0 <= k < ls.len() ==> is_blank(ls[k]),
    ensures
        body_after_header(ls) == Seq::<Seq<u8>>::empty(),
    decreases ls.len(),
{
    if ls.len() > 0 {
        assert(is_blank(ls[0]));
        lemma_body_after_header_all_blank(ls.skip(1));
    }
}

/// How `drop_done` grows when one more line is appended.
pub proof fn lemma_drop_done_push(ls: Seq<Seq<u8>>, l: Seq<u8>)
    ensures
        drop_done(ls.push(l)) == drop_done(ls) + (if is_done_line(l) {
            Seq::<Seq<u8>>::empty()
        } else {
            seq![l]
        }),
    decreases ls.len(),
{
    if ls.len() == 0 {
        assert(ls.push(l)[0] == l);
        assert(ls.push(l).skip(1) =~= Seq::<Seq<u8>>::empty());
        assert(drop_done(Seq::<Seq<u8>>::empty()) == Seq::<Seq<u8>>::empty());
        if is_done_line(l) {
            assert(drop_done(ls.push(l)) =~= drop_done(ls) + Seq::<Seq<u8>>::empty());
        } else {
            assert(drop_done(ls.push(l)) =~= drop_done(ls) + seq![l]);
        }
    } else {
        assert(ls.push(l)[0] == ls[0]);
        assert(ls.push(l).skip(1) =~= ls.skip(1).push(l));
        lemma_drop_done_push(ls.skip(1), l);
        if is_done_line(ls[0]) {
        } else {
            if is_done_line(l) {
                assert(drop_done(ls.push(l)) =~= drop_done(ls) + Seq::<Seq<u8>>::empty());
            } else {
                assert(drop_done(ls.push(l)) =~= drop_done(ls) + seq![l]);
            }
        }
    }
}

/// Builds the content of a rolled note from the predecessor's content and the
/// fresh header, as `transform_spec` describes.
pub fn construct_new_note(prev: &Vec<u8>, header: &Vec<u8>) -> (r: Vec<u8>)
    ensures
        r@ == transform_spec(prev@, header@),
{
    let ghost hdr = trim_end_spec(header@);
    let lines = split_lines(prev);
    let ghost ldv = lines.deep_view();
    let mut out = trim_end_bytes(header);
    out.push(10u8);
    proof {
        assert(seq![hdr].skip(1) =~= Seq::<Seq<u8>>::empty());
        assert(cat_lines_nl(Seq::<Seq<u8>>::empty()) == Seq::<u8>::empty());
        assert(out@ =~= cat_lines_nl(seq![hdr]));
    }
    proof {
        assert forall|k: int| 0 <= k < ldv.len() implies ldv[k] == lines@[k]@ by {
            assert(ldv[k] =~= lines@[k]@);
        }
    }
    let mut i: usize = 0;
    while i < lines.len() && is_blank_line(&lines[i])
        invariant
            0 <= i <= ldv.len(),
            ldv == lines.deep_view(),
            ldv.len() == lines@.len(),
            forall|k: int| 0 <= k < ldv.len() ==> ldv[k] == lines@[k]@,
            forall|k: int| 0 <= k < i ==> is_blank(ldv[k]),
        decreases ldv.len() - i,
    {
        i = i + 1;
    }
    if i == lines.len() {
        proof {
            lemma_body_after_header_all_blank(ldv);
            assert(seq![hdr] + drop_done(body_after_header(ldv)) =~= seq![hdr]);
        }
        return out;
    }
    proof {
        lemma_body_after_header_at(ldv, i as int);
    }
    let mut j: usize = i + 1;
    proof {
        assert(ldv.subrange(i as int + 1, i as int + 1) =~= Seq::<Seq<u8>>::empty());
        assert(seq![hdr] + drop_done(ldv.subrange(i as int + 1, i as int + 1)) =~= seq![hdr]);
    }
    while j < lines.len()
        invariant
            i + 1 <= j <= ldv.len(),
            ldv == lines.deep_view(),
            ldv.len() == lines@.len(),
            forall|k: int| 0 <= k < ldv.len() ==> ldv[k] == lines@[k]@,
            out@ == cat_lines_nl(seq![hdr] + drop_done(ldv.subrange(i as int + 1, j as int))),
        decreases ldv.len() - j,
    {
        let ghost prev_sub = ldv.subrange(i as int + 1, j as int);
        proof {
            assert(ldv.subrange(i as int + 1, j as int + 1) =~= prev_sub.push(ldv[j as int]));
            lemma_drop_done_push(prev_sub, ldv[j as int]);
        }
        if !is_done_task_line(&lines[j]) {
            push_bytes(&mut out, &lines[j]);
            out.push(10u8);
            proof {
                crate::lines::lemma_cat_lines_nl_push(
                    seq![hdr] + drop_done(prev_sub),
                    ldv[j as int],
                );
                assert(seq![hdr] + drop_done(prev_sub.push(ldv[j as int])) =~= (seq![hdr]
                    + drop_done(prev_sub)).push(ldv[j as int]));
                assert(out@ =~= cat_lines_nl(
                    seq![hdr] + drop_done(ldv.subrange(i as int + 1, j as int + 1)),
                ));
            }
        } else {
            proof {
                assert(seq![hdr] + drop_done(prev_sub.push(ldv[j as int])) =~= seq![hdr]
                    + drop_done(prev_sub));
            }
        }
        j = j + 1;
    }
    proof {
        assert(ldv.subrange(i as int + 1, ldv.len() as int) =~= ldv.skip(i as int + 1));
    }
    out
}

/// Decides a roll and builds the new note's content. Rolling refuses to act
/// when the current note already exists, and when there is no predecessor to
/// carry content from; in both cases nothing is created.
pub fn roll_note(
    note_type: NoteType,
    now: &NoteDate,
    current_exists: bool,
    predecessor: Option<&Vec<u8>>,
) -> (r: Result<Vec<u8>, RollError>)
    requires
        now.wf(),
    ensures
        r.is_ok() <==> (!current_exists && predecessor.is_some()),
        current_exists ==> r == Err::<Vec<u8>, RollError>(RollError::AlreadyRolled),
        !current_exists ==> match predecessor {
            Some(p) => r matches Ok(c) && c@ == transform_spec(p@, header_spec(note_type, *now)),
            None => r == Err::<Vec<u8>, RollError>(RollError::NoPredecessor),
        },
{
    if current_exists {
        return Err(RollError::AlreadyRolled);
    }
    match predecessor {
        None => Err(RollError::NoPredecessor),
        Some(prev) => {
            let header = construct_header(note_type, now);
            Ok(construct_new_note(prev, &header))
        },
    }
}


/// How many of the lines are completed checklist items.
pub open spec fn count_done(ls: Seq<Seq<u8>>) -> int
    decreases ls.len(),
{
    if ls.len() == 0 {
        0
    } else {
        (if is_done_line(ls[0]) {
            1int
        } else {
            0int
        }) + count_done(ls.skip(1))
    }
}

/// Dropping the done lines removes exactly `count_done` of them.
pub proof fn lemma_drop_done_len(ls: Seq<Seq<u8>>)
    ensures
        0 <= count_done(ls) <= ls.len(),
        drop_done(ls).len() == ls.len() - count_done(ls),
    decreases ls.len(),
{
    if ls.len() > 0 {
        lemma_drop_done_len(ls.skip(1));
    }
}

/// Every kept line stands in the input.
pub proof fn lemma_drop_done_sub(ls: Seq<Seq<u8>>)
    ensures
        forall|k: int|
            0 <= k < drop_done(ls).len() ==> ls.contains(#[trigger] drop_done(ls)[k]),
    decreases ls.len(),
{
    if ls.len() == 0 {
    } else {
        lemma_drop_done_sub(ls.skip(1));
        let res = drop_done(ls);
        let rest = drop_done(ls.skip(1));
        assert forall|k: int| 0 <= k < res.len() implies ls.contains(#[trigger] res[k]) by {
            if is_done_line(ls[0]) {
                assert(res[k] == rest[k]);
                let j = choose|j: int| 0 <= j < ls.skip(1).len() && ls.skip(1)[j] == rest[k];
                assert(ls[j + 1] == rest[k]);
            } else {
                if k == 0 {
                    assert(res[k] == ls[0]);
                } else {
                    assert(res[k] == rest[k - 1]);
                    let j = choose|j: int| 0 <= j < ls.skip(1).len() && ls.skip(1)[j] == rest[k
                        - 1];
                    assert(ls[j + 1] == rest[k - 1]);
                }
            }
        }
    }
}

/// The round trip of a roll: when the predecessor's first line is its header
/// (not blank) and the header holds no newline, the rolled note splits back
/// into the trimmed header followed by exactly the predecessor's lines after
/// the first, minus its completed checklist items, in their original order.
/// With N predecessor lines of which K after the first are done, that is
/// 1 + (N - 1 - K) lines.
pub proof fn lemma_transform_line_count(prev: Seq<u8>, header: Seq<u8>)
    requires
        lines_of(prev).len() > 0,
        !is_blank(lines_of(prev)[0]),
        forall|j: int| 0 <= j < header.len() ==> header[j] != 10,
    ensures
        lines_of(transform_spec(prev, header)) == seq![trim_end_spec(header)] + drop_done(
            lines_of(prev).skip(1),
        ),
        lines_of(transform_spec(prev, header)).len() == lines_of(prev).len() - count_done(
            lines_of(prev).skip(1),
        ),
{
    let ls = lines_of(prev);
    let body = ls.skip(1);
    let hdr = trim_end_spec(header);
    lemma_body_after_header_at(ls, 0);
    assert(body_after_header(ls) == body);
    let all = seq![hdr] + drop_done(body);
    crate::lines::lemma_lines_no_nl(prev);
    crate::lines::lemma_trim_end_no_nl(header);
    lemma_drop_done_sub(body);
    assert forall|k: int, j: int|
        0 <= k < all.len() && 0 <= j < all[k].len() implies all[k][j] != 10 by {
        if k == 0 {
            assert(all[k] == hdr);
        } else {
            assert(all[k] == drop_done(body)[k - 1]);
            assert(body.contains(all[k]));
            let t = choose|t: int| 0 <= t < body.len() && body[t] == all[k];
            assert(ls[t + 1] == all[k]);
        }
    }
    crate::lines::lemma_lines_of_cat(all);
    lemma_drop_done_len(body);
}

} // verus!
