//! Listing a note: its full content, or only the open checklist items on it.

use vstd::prelude::*;

use crate::cli::{ListArgs, ListType};
use crate::lines::{
    contains_at, contains_open_marker, contains_seq, join_nl, lemma_join_nl_push,
    lemma_lines_from_append, lemma_lines_no_nl, lines_from, lines_of, open_marker, push_bytes,
    split_lines,
};

verus! {

/// The lines that carry an open-task marker, in their original order.
pub open spec fn open_task_lines(ls: Seq<Seq<u8>>) -> Seq<Seq<u8>>
    decreases ls.len(),
{
    if ls.len() == 0 {
        Seq::empty()
    } else if contains_seq(ls[0], open_marker()) {
        seq![ls[0]] + open_task_lines(ls.skip(1))
    } else {
        open_task_lines(ls.skip(1))
    }
}

/// The open tasks of a note: every line containing `- [ ]`, joined by
/// newlines, with no trailing newline.
pub open spec fn keep_open_tasks_spec(s: Seq<u8>) -> Seq<u8> {
    join_nl(open_task_lines(lines_of(s)))
}

/// How `open_task_lines` grows when one more line is appended.
pub proof fn lemma_open_task_lines_push(ls: Seq<Seq<u8>>, l: Seq<u8>)
    ensures
        open_task_lines(ls.push(l)) == open_task_lines(ls) + (if contains_seq(l, open_marker()) {
            seq![l]
        } else {
            Seq::<Seq<u8>>::empty()
        }),
    decreases ls.len(),
{
    if ls.len() == 0 {
        assert(ls.push(l)[0] == l);
        assert(ls.push(l).skip(1) =~= Seq::<Seq<u8>>::empty());
        assert(open_task_lines(Seq::<Seq<u8>>::empty()) == Seq::<Seq<u8>>::empty());
        if contains_seq(l, open_marker()) {
            assert(open_task_lines(ls.push(l)) =~= open_task_lines(ls) + seq![l]);
        } else {
            assert(open_task_lines(ls.push(l)) =~= open_task_lines(ls) + Seq::<Seq<u8>>::empty());
        }
    } else {
        assert(ls.push(l)[0] == ls[0]);
        assert(ls.push(l).skip(1) =~= ls.skip(1).push(l));
        lemma_open_task_lines_push(ls.skip(1), l);
        if contains_seq(ls[0], open_marker()) {
            if contains_seq(l, open_marker()) {
                assert(open_task_lines(ls.push(l)) =~= open_task_lines(ls) + seq![l]);
            } else {
                assert(open_task_lines(ls.push(l)) =~= open_task_lines(ls)
                    + Seq::<Seq<u8>>::empty());
            }
        }
    }
}

/// Every kept line carries the marker and comes from the input.
pub proof fn lemma_open_task_lines_sub(ls: Seq<Seq<u8>>)
    ensures
        forall|k: int|
            0 <= k < open_task_lines(ls).len() ==> contains_seq(
                #[trigger] open_task_lines(ls)[k],
                open_marker(),
            ) && ls.contains(open_task_lines(ls)[k]),
    decreases ls.len(),
{
    if ls.len() == 0 {
    } else {
        lemma_open_task_lines_sub(ls.skip(1));
        let res = open_task_lines(ls);
        let rest = open_task_lines(ls.skip(1));
        assert forall|k: int|
            0 <= k < res.len() implies contains_seq(#[trigger] res[k], open_marker())
            && ls.contains(res[k]) by {
            if contains_seq(ls[0], open_marker()) {
                if k == 0 {
                    assert(res[k] == ls[0]);
                } else {
                    assert(res[k] == rest[k - 1]);
                    let j = choose|j: int| 0 <= j < ls.skip(1).len() && ls.skip(1)[j] == rest[k
                        - 1];
                    assert(ls[j + 1] == rest[k - 1]);
                }
            } else {
                assert(res[k] == rest[k]);
                let j = choose|j: int| 0 <= j < ls.skip(1).len() && ls.skip(1)[j] == rest[k];
                assert(ls[j + 1] == rest[k]);
            }
        }
    }
}

/// Filtering lines that all carry the marker keeps them all.
proof fn lemma_open_task_lines_identity(ls: Seq<Seq<u8>>)
    requires
        forall|k: int| 0 <= k < ls.len() ==> contains_seq(#[trigger] ls[k], open_marker()),
    ensures
        open_task_lines(ls) == ls,
    decreases ls.len(),
{
    if ls.len() == 0 {
        assert(open_task_lines(ls) =~= ls);
    } else {
        assert(contains_seq(ls[0], open_marker()));
        lemma_open_task_lines_identity(ls.skip(1));
        assert(open_task_lines(ls) =~= ls);
    }
}

/// Joining lines and splitting again gives the lines back, provided none is
/// empty and none contains a newline byte.
pub proof fn lemma_lines_of_join(ks: Seq<Seq<u8>>)
    requires
        forall|k: int| 0 <= k < ks.len() ==> (#[trigger] ks[k]).len() > 0,
        forall|k: int, j: int| 0 <= k < ks.len() && 0 <= j < ks[k].len() ==> ks[k][j] != 10,
    ensures
        lines_of(join_nl(ks)) == ks,
    decreases ks.len(),
{
    if ks.len() == 0 {
        assert(lines_of(join_nl(ks)) =~= ks);
    } else if ks.len() == 1 {
        assert(join_nl(ks) == ks[0]);
        lemma_lines_from_append(Seq::empty(), ks[0], Seq::empty());
        assert(ks[0] + Seq::<u8>::empty() =~= ks[0]);
        assert(Seq::<u8>::empty() + ks[0] =~= ks[0]);
        assert(lines_from(ks[0], Seq::<u8>::empty()) == seq![ks[0]]);
        assert(lines_of(join_nl(ks)) =~= ks);
    } else {
        let rest = ks.skip(1);
        let tail = seq![10u8] + join_nl(rest);
        assert(join_nl(ks) == ks[0] + tail);
        lemma_lines_from_append(Seq::empty(), ks[0], tail);
        assert(Seq::<u8>::empty() + ks[0] =~= ks[0]);
        assert(tail[0] == 10);
        assert(lines_from(ks[0], tail) == seq![ks[0]] + lines_from(
            Seq::empty(),
            tail.skip(1),
        ));
        assert(tail.skip(1) =~= join_nl(rest));
        assert forall|k: int| 0 <= k < rest.len() implies (#[trigger] rest[k]).len() > 0 by {
            assert(rest[k] == ks[k + 1]);
        }
        assert forall|k: int, j: int|
            0 <= k < rest.len() && 0 <= j < rest[k].len() implies rest[k][j] != 10 by {
            assert(rest[k] == ks[k + 1]);
        }
        lemma_lines_of_join(rest);
        assert(lines_of(join_nl(ks)) =~= seq![ks[0]] + rest);
        assert(seq![ks[0]] + rest =~= ks);
    }
}

/// Extracting open tasks is a pure filter: doing it to its own output
/// changes nothing.
pub proof fn lemma_open_tasks_idempotent(s: Seq<u8>)
    ensures
        keep_open_tasks_spec(keep_open_tasks_spec(s)) == keep_open_tasks_spec(s),
{
    let ls = lines_of(s);
    let kept = open_task_lines(ls);
    lemma_lines_no_nl(s);
    lemma_open_task_lines_sub(ls);
    assert forall|k: int| 0 <= k < kept.len() implies (#[trigger] kept[k]).len() > 0 by {
        assert(contains_seq(kept[k], open_marker()));
        let i = choose|i: int| contains_at(kept[k], i, open_marker());
        assert(kept[k].len() >= 5);
    }
    assert forall|k: int, j: int|
        0 <= k < kept.len() && 0 <= j < kept[k].len() implies kept[k][j] != 10 by {
        assert(ls.contains(kept[k]));
        let t = choose|t: int| 0 <= t < ls.len() && ls[t] == kept[k];
    }
    lemma_lines_of_join(kept);
    lemma_open_task_lines_identity(kept);
}

/// Keeps only the lines containing the open-task marker `- [ ]`, joined by
/// newlines.
pub fn keep_open_tasks(text: &Vec<u8>) -> (r: Vec<u8>)
    ensures
        r@ == keep_open_tasks_spec(text@),
{
    let lines = split_lines(text);
    let ghost ldv = lines.deep_view();
    proof {
        assert forall|k: int| 0 <= k < ldv.len() implies ldv[k] == lines@[k]@ by {
            assert(ldv[k] =~= lines@[k]@);
        }
    }
    let mut out: Vec<u8> = Vec::new();
    let mut got_any: bool = false;
    let mut i: usize = 0;
    proof {
        assert(ldv.take(0) =~= Seq::<Seq<u8>>::empty());
        assert(open_task_lines(Seq::<Seq<u8>>::empty()) == Seq::<Seq<u8>>::empty());
    }
    while i < lines.len()
        invariant
            0 <= i <= ldv.len(),
            ldv == lines.deep_view(),
            ldv.len() == lines@.len(),
            forall|k: int| 0 <= k < ldv.len() ==> ldv[k] == lines@[k]@,
            got_any == (open_task_lines(ldv.take(i as int)).len() != 0),
            out@ == join_nl(open_task_lines(ldv.take(i as int))),
        decreases ldv.len() - i,
    {
        let ghost prefix = ldv.take(i as int);
        proof {
            assert(ldv.take(i as int + 1) =~= prefix.push(ldv[i as int]));
            lemma_open_task_lines_push(prefix, ldv[i as int]);
        }
        if contains_open_marker(&lines[i]) {
            proof {
                lemma_join_nl_push(open_task_lines(prefix), ldv[i as int]);
                assert(open_task_lines(prefix.push(ldv[i as int])) =~= open_task_lines(
                    prefix,
                ).push(ldv[i as int]));
            }
            if got_any {
                out.push(10u8);
            }
            push_bytes(&mut out, &lines[i]);
            got_any = true;
        } else {
            proof {
                assert(open_task_lines(prefix.push(ldv[i as int])) =~= open_task_lines(prefix));
            }
        }
        i = i + 1;
    }
    proof {
        assert(ldv.take(ldv.len() as int) =~= ldv);
    }
    out
}

/// Lists a note: its whole content, or only its open tasks.
pub fn run(args: &ListArgs, content: &Vec<u8>) -> (r: Vec<u8>)
    ensures
        match args.list_type {
            ListType::Contents => r@ == content@,
            ListType::Tasks => r@ == keep_open_tasks_spec(content@),
        },
{
    match args.list_type {
        ListType::Contents => {
            let mut out: Vec<u8> = Vec::new();
            push_bytes(&mut out, content);
            proof {
                assert(out@ =~= content@);
            }
            out
        },
        ListType::Tasks => keep_open_tasks(content),
    }
}

} // verus!
