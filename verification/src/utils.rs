//! Names and formats shared by the note categories: identifiers, headers and
//! file paths. Everything here is deterministic in the date it is given.

use vstd::prelude::*;

use crate::cli::NoteType;
use crate::date::{four_digits, push_four_digits, push_two_digits, two_digits, NoteDate};
use crate::lines::push_bytes;
use crate::order::{lemma_lex_total, lex_le, lex_le_bytes};

verus! {

/// The full English name of a weekday, counted from Monday.
pub open spec fn weekday_name(w: int) -> Seq<u8>
    recommends
        0 <= w <= 6,
{
    if w == 0 {
        seq!['M' as u8, 'o' as u8, 'n' as u8, 'd' as u8, 'a' as u8, 'y' as u8]
    } else if w == 1 {
        seq!['T' as u8, 'u' as u8, 'e' as u8, 's' as u8, 'd' as u8, 'a' as u8, 'y' as u8]
    } else if w == 2 {
        seq!['W' as u8, 'e' as u8, 'd' as u8, 'n' as u8, 'e' as u8, 's' as u8, 'd' as u8, 'a' as u8, 'y' as u8]
    } else if w == 3 {
        seq!['T' as u8, 'h' as u8, 'u' as u8, 'r' as u8, 's' as u8, 'd' as u8, 'a' as u8, 'y' as u8]
    } else if w == 4 {
        seq!['F' as u8, 'r' as u8, 'i' as u8, 'd' as u8, 'a' as u8, 'y' as u8]
    } else if w == 5 {
        seq!['S' as u8, 'a' as u8, 't' as u8, 'u' as u8, 'r' as u8, 'd' as u8, 'a' as u8, 'y' as u8]
    } else {
        seq!['S' as u8, 'u' as u8, 'n' as u8, 'd' as u8, 'a' as u8, 'y' as u8]
    }
}

/// The full English name of a month, counted from January as 1.
pub open spec fn month_name(m: int) -> Seq<u8>
    recommends
        1 <= m <= 12,
{
    if m == 1 {
        seq!['J' as u8, 'a' as u8, 'n' as u8, 'u' as u8, 'a' as u8, 'r' as u8, 'y' as u8]
    } else if m == 2 {
        seq!['F' as u8, 'e' as u8, 'b' as u8, 'r' as u8, 'u' as u8, 'a' as u8, 'r' as u8, 'y' as u8]
    } else if m == 3 {
        seq!['M' as u8, 'a' as u8, 'r' as u8, 'c' as u8, 'h' as u8]
    } else if m == 4 {
        seq!['A' as u8, 'p' as u8, 'r' as u8, 'i' as u8, 'l' as u8]
    } else if m == 5 {
        seq!['M' as u8, 'a' as u8, 'y' as u8]
    } else if m == 6 {
        seq!['J' as u8, 'u' as u8, 'n' as u8, 'e' as u8]
    } else if m == 7 {
        seq!['J' as u8, 'u' as u8, 'l' as u8, 'y' as u8]
    } else if m == 8 {
        seq!['A' as u8, 'u' as u8, 'g' as u8, 'u' as u8, 's' as u8, 't' as u8]
    } else if m == 9 {
        seq!['S' as u8, 'e' as u8, 'p' as u8, 't' as u8, 'e' as u8, 'm' as u8, 'b' as u8, 'e' as u8, 'r' as u8]
    } else if m == 10 {
        seq!['O' as u8, 'c' as u8, 't' as u8, 'o' as u8, 'b' as u8, 'e' as u8, 'r' as u8]
    } else if m == 11 {
        seq!['N' as u8, 'o' as u8, 'v' as u8, 'e' as u8, 'm' as u8, 'b' as u8, 'e' as u8, 'r' as u8]
    } else {
        seq!['D' as u8, 'e' as u8, 'c' as u8, 'e' as u8, 'm' as u8, 'b' as u8, 'e' as u8, 'r' as u8]
    }
}

/// Appends the English weekday name to `out`.
pub fn push_weekday_name(out: &mut Vec<u8>, w: u8)
    requires
        w <= 6,
    ensures
        final(out)@ == old(out)@ + weekday_name(w as int),
{
    let name: Vec<u8> = if w == 0 {
        vec!['M' as u8, 'o' as u8, 'n' as u8, 'd' as u8, 'a' as u8, 'y' as u8]
    } else if w == 1 {
        vec!['T' as u8, 'u' as u8, 'e' as u8, 's' as u8, 'd' as u8, 'a' as u8, 'y' as u8]
    } else if w == 2 {
        vec!['W' as u8, 'e' as u8, 'd' as u8, 'n' as u8, 'e' as u8, 's' as u8, 'd' as u8, 'a' as u8, 'y' as u8]
    } else if w == 3 {
        vec!['T' as u8, 'h' as u8, 'u' as u8, 'r' as u8, 's' as u8, 'd' as u8, 'a' as u8, 'y' as u8]
    } else if w == 4 {
        vec!['F' as u8, 'r' as u8, 'i' as u8, 'd' as u8, 'a' as u8, 'y' as u8]
    } else if w == 5 {
        vec!['S' as u8, 'a' as u8, 't' as u8, 'u' as u8, 'r' as u8, 'd' as u8, 'a' as u8, 'y' as u8]
    } else {
        vec!['S' as u8, 'u' as u8, 'n' as u8, 'd' as u8, 'a' as u8, 'y' as u8]
    };
    proof {
        assert(name@ =~= weekday_name(w as int));
    }
    push_bytes(out, &name);
}

/// Appends the English month name to `out`.
pub fn push_month_name(out: &mut Vec<u8>, m: u8)
    requires
        1 <= m <= 12,
    ensures
        final(out)@ == old(out)@ + month_name(m as int),
{
    let name: Vec<u8> = if m == 1 {
        vec!['J' as u8, 'a' as u8, 'n' as u8, 'u' as u8, 'a' as u8, 'r' as u8, 'y' as u8]
    } else if m == 2 {
        vec!['F' as u8, 'e' as u8, 'b' as u8, 'r' as u8, 'u' as u8, 'a' as u8, 'r' as u8, 'y' as u8]
    } else if m == 3 {
        vec!['M' as u8, 'a' as u8, 'r' as u8, 'c' as u8, 'h' as u8]
    } else if m == 4 {
        vec!['A' as u8, 'p' as u8, 'r' as u8, 'i' as u8, 'l' as u8]
    } else if m == 5 {
        vec!['M' as u8, 'a' as u8, 'y' as u8]
    } else if m == 6 {
        vec!['J' as u8, 'u' as u8, 'n' as u8, 'e' as u8]
    } else if m == 7 {
        vec!['J' as u8, 'u' as u8, 'l' as u8, 'y' as u8]
    } else if m == 8 {
        vec!['A' as u8, 'u' as u8, 'g' as u8, 'u' as u8, 's' as u8, 't' as u8]
    } else if m == 9 {
        vec!['S' as u8, 'e' as u8, 'p' as u8, 't' as u8, 'e' as u8, 'm' as u8, 'b' as u8, 'e' as u8, 'r' as u8]
    } else if m == 10 {
        vec!['O' as u8, 'c' as u8, 't' as u8, 'o' as u8, 'b' as u8, 'e' as u8, 'r' as u8]
    } else if m == 11 {
        vec!['N' as u8, 'o' as u8, 'v' as u8, 'e' as u8, 'm' as u8, 'b' as u8, 'e' as u8, 'r' as u8]
    } else {
        vec!['D' as u8, 'e' as u8, 'c' as u8, 'e' as u8, 'm' as u8, 'b' as u8, 'e' as u8, 'r' as u8]
    };
    proof {
        assert(name@ =~= month_name(m as int));
    }
    push_bytes(out, &name);
}


/// The storage directory name of a dated category.
pub open spec fn category_dir_name(nt: NoteType) -> Seq<u8>
    recommends
        nt != NoteType::Someday,
{
    match nt {
        NoteType::Daily => seq!['d' as u8, 'a' as u8, 'i' as u8, 'l' as u8, 'y' as u8],
        NoteType::Monthly => seq!['m' as u8, 'o' as u8, 'n' as u8, 't' as u8, 'h' as u8, 'l' as u8, 'y' as u8],
        NoteType::Yearly => seq!['y' as u8, 'e' as u8, 'a' as u8, 'r' as u8, 'l' as u8, 'y' as u8],
        NoteType::Someday => Seq::empty(),
    }
}

/// The directory scanned for a category's notes: a subdirectory for the dated
/// categories, the root itself for the someday note.
pub open spec fn note_dir_spec(root: Seq<u8>, nt: NoteType) -> Seq<u8> {
    match nt {
        NoteType::Someday => root,
        _ => root + seq!['/' as u8] + category_dir_name(nt),
    }
}

/// The date-derived filename stem of the current note. Fixed-width,
/// zero-padded fields make the lexicographic order of stems the
/// chronological order.
pub open spec fn ident_spec(nt: NoteType, d: NoteDate) -> Seq<u8>
    recommends
        d.wf(),
{
    match nt {
        NoteType::Daily => two_digits(d.year as int % 100) + seq!['-' as u8] + two_digits(
            d.month as int,
        ) + seq!['-' as u8] + two_digits(d.day as int),
        NoteType::Monthly => two_digits(d.year as int % 100) + seq!['-' as u8] + two_digits(
            d.month as int,
        ),
        NoteType::Yearly => four_digits(d.year as int),
        NoteType::Someday => seq!['s' as u8, 'o' as u8, 'm' as u8, 'e' as u8, 'd' as u8, 'a' as u8, 'y' as u8],
    }
}

/// The header line written at the top of a fresh note.
pub open spec fn header_spec(nt: NoteType, d: NoteDate) -> Seq<u8>
    recommends
        d.wf(),
{
    match nt {
        NoteType::Daily => seq!['#' as u8, '#' as u8, ' ' as u8] + weekday_name(d.weekday as int) + seq![' ' as u8]
            + ident_spec(NoteType::Daily, d),
        NoteType::Monthly => seq!['#' as u8, '#' as u8, ' ' as u8] + month_name(d.month as int) + seq![' ' as u8]
            + four_digits(d.year as int),
        NoteType::Yearly => seq!['#' as u8, '#' as u8, ' ' as u8] + four_digits(d.year as int),
        NoteType::Someday => seq!['#' as u8, '#' as u8, ' ' as u8] + seq!['S' as u8, 'o' as u8, 'm' as u8, 'e' as u8, 'd' as u8, 'a' as u8, 'y' as u8],
    }
}

/// The path of the current period's note, which need not exist yet.
pub open spec fn current_note_path_spec(root: Seq<u8>, nt: NoteType, d: NoteDate) -> Seq<u8>
    recommends
        d.wf(),
{
    match nt {
        NoteType::Someday => root + seq!['/' as u8] + seq!['s' as u8, 'o' as u8, 'm' as u8, 'e' as u8, 'd' as u8, 'a' as u8, 'y' as u8] + seq!['.' as u8, 'm' as u8, 'd' as u8],
        _ => note_dir_spec(root, nt) + seq!['/' as u8] + ident_spec(nt, d) + seq!['.' as u8, 'm' as u8, 'd' as u8],
    }
}

/// Appends the date-derived identifier of the current note to `out`.
pub fn push_ident(out: &mut Vec<u8>, nt: NoteType, now: &NoteDate)
    requires
        now.wf(),
    ensures
        final(out)@ == old(out)@ + ident_spec(nt, *now),
{
    match nt {
        NoteType::Daily => {
            push_two_digits(out, (now.year % 100) as u8);
            out.push('-' as u8);
            push_two_digits(out, now.month);
            out.push('-' as u8);
            push_two_digits(out, now.day);
            proof {
                assert(out@ =~= old(out)@ + ident_spec(nt, *now));
            }
        },
        NoteType::Monthly => {
            push_two_digits(out, (now.year % 100) as u8);
            out.push('-' as u8);
            push_two_digits(out, now.month);
            proof {
                assert(out@ =~= old(out)@ + ident_spec(nt, *now));
            }
        },
        NoteType::Yearly => {
            push_four_digits(out, now.year);
        },
        NoteType::Someday => {
            let v: Vec<u8> = vec!['s' as u8, 'o' as u8, 'm' as u8, 'e' as u8, 'd' as u8, 'a' as u8, 'y' as u8];
            proof {
                assert(v@ =~= seq!['s' as u8, 'o' as u8, 'm' as u8, 'e' as u8, 'd' as u8, 'a' as u8, 'y' as u8]);
            }
            push_bytes(out, &v);
        },
    }
}

/// Builds the header line for a fresh note of the category: the weekday and
/// date for a daily note, the month name and year for a monthly one, the year
/// for a yearly one, and `## Someday` for the someday note.
pub fn construct_header(note_type: NoteType, now: &NoteDate) -> (r: Vec<u8>)
    requires
        now.wf(),
    ensures
        r@ == header_spec(note_type, *now),
{
    let mut out: Vec<u8> = vec!['#' as u8, '#' as u8, ' ' as u8];
    proof {
        assert(out@ =~= seq!['#' as u8, '#' as u8, ' ' as u8]);
    }
    match note_type {
        NoteType::Daily => {
            push_weekday_name(&mut out, now.weekday);
            out.push(' ' as u8);
            push_ident(&mut out, NoteType::Daily, now);
            proof {
                assert(out@ =~= header_spec(note_type, *now));
            }
        },
        NoteType::Monthly => {
            push_month_name(&mut out, now.month);
            out.push(' ' as u8);
            push_four_digits(&mut out, now.year);
            proof {
                assert(out@ =~= header_spec(note_type, *now));
            }
        },
        NoteType::Yearly => {
            push_four_digits(&mut out, now.year);
            proof {
                assert(out@ =~= header_spec(note_type, *now));
            }
        },
        NoteType::Someday => {
            let v: Vec<u8> = vec!['S' as u8, 'o' as u8, 'm' as u8, 'e' as u8, 'd' as u8, 'a' as u8, 'y' as u8];
            proof {
                assert(v@ =~= seq!['S' as u8, 'o' as u8, 'm' as u8, 'e' as u8, 'd' as u8, 'a' as u8, 'y' as u8]);
            }
            push_bytes(&mut out, &v);
            proof {
                assert(out@ =~= header_spec(note_type, *now));
            }
        },
    }
    out
}

/// Appends the category directory path (root, or root plus the category
/// subdirectory) to `out`.
pub fn push_note_dir(out: &mut Vec<u8>, root: &Vec<u8>, nt: NoteType)
    ensures
        final(out)@ == old(out)@ + note_dir_spec(root@, nt),
{
    push_bytes(out, root);
    match nt {
        NoteType::Daily => {
            out.push('/' as u8);
            let v: Vec<u8> = vec!['d' as u8, 'a' as u8, 'i' as u8, 'l' as u8, 'y' as u8];
            proof {
                assert(v@ =~= seq!['d' as u8, 'a' as u8, 'i' as u8, 'l' as u8, 'y' as u8]);
            }
            push_bytes(out, &v);
            proof {
                assert(out@ =~= old(out)@ + note_dir_spec(root@, nt));
            }
        },
        NoteType::Monthly => {
            out.push('/' as u8);
            let v: Vec<u8> = vec!['m' as u8, 'o' as u8, 'n' as u8, 't' as u8, 'h' as u8, 'l' as u8, 'y' as u8];
            proof {
                assert(v@ =~= seq!['m' as u8, 'o' as u8, 'n' as u8, 't' as u8, 'h' as u8, 'l' as u8, 'y' as u8]);
            }
            push_bytes(out, &v);
            proof {
                assert(out@ =~= old(out)@ + note_dir_spec(root@, nt));
            }
        },
        NoteType::Yearly => {
            out.push('/' as u8);
            let v: Vec<u8> = vec!['y' as u8, 'e' as u8, 'a' as u8, 'r' as u8, 'l' as u8, 'y' as u8];
            proof {
                assert(v@ =~= seq!['y' as u8, 'e' as u8, 'a' as u8, 'r' as u8, 'l' as u8, 'y' as u8]);
            }
            push_bytes(out, &v);
            proof {
                assert(out@ =~= old(out)@ + note_dir_spec(root@, nt));
            }
        },
        NoteType::Someday => {
        },
    }
}

/// Resolves the path of the current note of the category on the given date.
/// The returned path need not exist yet.
pub fn resolve_current_note(root: &Vec<u8>, note_type: NoteType, now: &NoteDate) -> (r: Vec<u8>)
    requires
        now.wf(),
    ensures
        r@ == current_note_path_spec(root@, note_type, *now),
{
    let mut out: Vec<u8> = Vec::new();
    push_note_dir(&mut out, root, note_type);
    out.push('/' as u8);
    push_ident(&mut out, note_type, now);
    let suffix: Vec<u8> = vec!['.' as u8, 'm' as u8, 'd' as u8];
    proof {
        assert(suffix@ =~= seq!['.' as u8, 'm' as u8, 'd' as u8]);
    }
    push_bytes(&mut out, &suffix);
    proof {
        assert(out@ =~= current_note_path_spec(root@, note_type, *now));
    }
    out
}


/// The filename stem of a note file: the name without its `.md` extension;
/// nothing for any other name.
pub open spec fn md_stem(f: Seq<u8>) -> Option<Seq<u8>> {
    if f.len() >= 4 && f.subrange(f.len() - 3, f.len() as int) == seq![
        '.' as u8,
        'm' as u8,
        'd' as u8,
    ] {
        Some(f.take(f.len() - 3))
    } else {
        None
    }
}

/// Extracts the stem of a filename carrying the `.md` extension.
pub fn file_stem_md(f: &Vec<u8>) -> (r: Option<Vec<u8>>)
    ensures
        match r {
            Some(s) => md_stem(f@) == Some(s@),
            None => md_stem(f@) is None,
        },
{
    let n = f.len();
    if n < 4 {
        return None;
    }
    if f[n - 3] == '.' as u8 && f[n - 2] == 'm' as u8 && f[n - 1] == 'd' as u8 {
        proof {
            assert(f@.subrange(n - 3, n as int) =~= seq!['.' as u8, 'm' as u8, 'd' as u8]);
        }
        let mut out: Vec<u8> = Vec::new();
        let mut j: usize = 0;
        while j < n - 3
            invariant
                0 <= j <= n - 3,
                n == f@.len(),
                n >= 4,
                out@ == f@.take(j as int),
            decreases n - 3 - j,
        {
            out.push(f[j]);
            proof {
                assert(out@ =~= f@.take(j as int + 1));
            }
            j = j + 1;
        }
        Some(out)
    } else {
        proof {
            let suffix = f@.subrange(n - 3, n as int);
            if suffix == seq!['.' as u8, 'm' as u8, 'd' as u8] {
                assert(suffix[0] == f@[n - 3]);
                assert(suffix[1] == f@[n - 2]);
                assert(suffix[2] == f@[n - 1]);
            }
        }
        None
    }
}

/// `p` is the path of the note with the lexicographically greatest stem among
/// the `.md` files of the category directory.
pub open spec fn most_recent_choice(
    root: Seq<u8>,
    nt: NoteType,
    fs: Seq<Seq<u8>>,
    k: int,
    p: Seq<u8>,
) -> bool {
    &&& 0 <= k < fs.len()
    &&& md_stem(fs[k]) is Some
    &&& p == note_dir_spec(root, nt) + seq!['/' as u8] + fs[k]
    &&& forall|j: int|
        0 <= j < fs.len() ==> match #[trigger] md_stem(fs[j]) {
            Some(st) => lex_le(st, md_stem(fs[k]).unwrap()),
            None => true,
        }
}

/// Finds the most recent existing note of a category: among the given names
/// of the files in the category directory, the `.md` file with the
/// lexicographically greatest stem. Names without the extension are ignored;
/// none at all means there is no such note.
#[verifier::rlimit(60)]
pub fn resolve_most_recent_note(root: &Vec<u8>, note_type: NoteType, files: &Vec<Vec<u8>>) -> (r:
    Option<Vec<u8>>)
    ensures
        r is None ==> forall|k: int|
            0 <= k < files.deep_view().len() ==> (#[trigger] md_stem(
                files.deep_view()[k],
            )) is None,
        r matches Some(p) ==> exists|k: int|
            most_recent_choice(root@, note_type, files.deep_view(), k, p@),
{
    let ghost fs = files.deep_view();
    proof {
        assert forall|k: int| 0 <= k < fs.len() implies fs[k] == files@[k]@ by {
            assert(fs[k] =~= files@[k]@);
        }
    }
    let mut best: Option<(Vec<u8>, Vec<u8>)> = None;
    let mut i: usize = 0;
    while i < files.len()
        invariant
            0 <= i <= fs.len(),
            fs == files.deep_view(),
            fs.len() == files@.len(),
            forall|k: int| 0 <= k < fs.len() ==> fs[k] == files@[k]@,
            match best {
                None => forall|t: int| 0 <= t < i ==> (#[trigger] md_stem(fs[t])) is None,
                Some(sn) => {
                    &&& (exists|t: int|
                        0 <= t < i && #[trigger] md_stem(fs[t]) == Some(sn.0@) && sn.1@ == fs[t])
                    &&& forall|t: int|
                        0 <= t < i ==> match #[trigger] md_stem(fs[t]) {
                            Some(st) => lex_le(st, sn.0@),
                            None => true,
                        }
                },
            },
        decreases fs.len() - i,
    {
        match file_stem_md(&files[i]) {
            None => {},
            Some(stem) => {
                let replace: bool = match &best {
                    None => true,
                    Some(sn) => !lex_le_bytes(&stem, &sn.0),
                };
                proof {
                    if let Some(sn) = &best {
                        lemma_lex_total(stem@, sn.0@);
                    }
                }
                if replace {
                    let ghost old_best = best;
                    let name = crate::lines::copy_bytes(&files[i]);
                    proof {
                        assert(md_stem(fs[i as int]) == Some(stem@));
                        assert(name@ == fs[i as int]);
                        if let Some(sn) = old_best {
                            assert(crate::order::lex_lt(sn.0@, stem@));
                            assert forall|t: int|
                                0 <= t < i + 1 implies match #[trigger] md_stem(fs[t]) {
                                Some(st) => lex_le(st, stem@),
                                None => true,
                            } by {
                                if t < i {
                                    if let Some(st) = md_stem(fs[t]) {
                                        if st == sn.0@ {
                                        } else {
                                            crate::order::lemma_lex_trans(st, sn.0@, stem@);
                                        }
                                    }
                                }
                            }
                        } else {
                            assert forall|t: int|
                                0 <= t < i + 1 implies match #[trigger] md_stem(fs[t]) {
                                Some(st) => lex_le(st, stem@),
                                None => true,
                            } by {
                                if t < i {
                                    assert(md_stem(fs[t]) is None);
                                }
                            }
                        }
                    }
                    best = Some((stem, name));
                    proof {
                        if let Some(sn) = &best {
                            assert(md_stem(fs[i as int]) == Some(sn.0@) && sn.1@ == fs[
                                i as int
                            ]);
                        }
                    }
                } else {
                    proof {
                        if let Some(sn) = &best {
                            assert(lex_le(stem@, sn.0@));
                            assert(md_stem(fs[i as int]) == Some(stem@));
                        }
                    }
                }
            },
        }
        i = i + 1;
    }
    match best {
        None => {
            proof {
                assert forall|k: int| 0 <= k < files.deep_view().len() implies (#[trigger] md_stem(
                    files.deep_view()[k],
                )) is None by {
                    assert(md_stem(fs[k]) is None);
                }
            }
            None
        },
        Some(sn) => {
            let mut out: Vec<u8> = Vec::new();
            push_note_dir(&mut out, root, note_type);
            out.push('/' as u8);
            push_bytes(&mut out, &sn.1);
            proof {
                let t = choose|t: int|
                    0 <= t < fs.len() && #[trigger] md_stem(fs[t]) == Some(sn.0@) && sn.1@ == fs[t];
                assert(out@ =~= note_dir_spec(root@, note_type) + seq!['/' as u8] + fs[t]);
                assert(most_recent_choice(root@, note_type, fs, t, out@));
                assert(most_recent_choice(root@, note_type, files.deep_view(), t, out@));
                assert(exists|k: int|
                    most_recent_choice(root@, note_type, files.deep_view(), k, out@));
            }
            let ghost oview = out@;
            let res: Option<Vec<u8>> = Some(out);
            proof {
                assert(res matches Some(p) ==> p@ == oview);
                assert(res matches Some(p) ==> exists|k: int|
                    most_recent_choice(root@, note_type, files.deep_view(), k, p@));
            }
            res
        },
    }
}


/// The chronological order of the dates of two notes of one dated category,
/// as far as the category's identifier records the date: daily and monthly
/// identifiers carry the year only modulo 100.
pub open spec fn date_key_le(nt: NoteType, d1: NoteDate, d2: NoteDate) -> bool
    recommends
        d1.wf(),
        d2.wf(),
{
    match nt {
        NoteType::Daily => {
            let y1 = d1.year as int % 100;
            let y2 = d2.year as int % 100;
            y1 < y2 || (y1 == y2 && (d1.month < d2.month || (d1.month == d2.month && d1.day
                <= d2.day)))
        },
        NoteType::Monthly => {
            let y1 = d1.year as int % 100;
            let y2 = d2.year as int % 100;
            y1 < y2 || (y1 == y2 && d1.month <= d2.month)
        },
        NoteType::Yearly => d1.year <= d2.year,
        NoteType::Someday => true,
    }
}

/// Strict version of `date_key_le`.
pub open spec fn date_key_lt(nt: NoteType, d1: NoteDate, d2: NoteDate) -> bool {
    date_key_le(nt, d1, d2) && !date_key_le(nt, d2, d1)
}

/// The identifiers of a dated category are fixed-width and zero-padded, so
/// their lexicographic order is the chronological order of the dates they
/// record. This is what lets "most recent note" be computed as a
/// lexicographic maximum over filename stems.
pub proof fn lemma_ident_order(nt: NoteType, d1: NoteDate, d2: NoteDate)
    requires
        d1.wf(),
        d2.wf(),
        nt != NoteType::Someday,
    ensures
        lex_le(ident_spec(nt, d1), ident_spec(nt, d2)) <==> date_key_le(nt, d1, d2),
{
    let i1 = ident_spec(nt, d1);
    let i2 = ident_spec(nt, d2);
    let dash = seq!['-' as u8];
    crate::order::lemma_lex_single('-' as u8, '-' as u8);
    crate::order::lemma_lex_total(i1, i2);
    crate::order::lemma_lex_irrefl(i1);
    crate::order::lemma_lex_irrefl(i2);
    match nt {
        NoteType::Daily => {
            let y1 = d1.year as int % 100;
            let y2 = d2.year as int % 100;
            let m1 = d1.month as int;
            let m2 = d2.month as int;
            let dd1 = d1.day as int;
            let dd2 = d2.day as int;
            let r1 = dash + (two_digits(m1) + (dash + two_digits(dd1)));
            let r2 = dash + (two_digits(m2) + (dash + two_digits(dd2)));
            assert(i1 =~= two_digits(y1) + r1);
            assert(i2 =~= two_digits(y2) + r2);
            crate::order::lemma_lex_concat_eqlen(two_digits(y1), two_digits(y2), r1, r2);
            crate::order::lemma_lex_concat_eqlen(
                dash,
                dash,
                two_digits(m1) + (dash + two_digits(dd1)),
                two_digits(m2) + (dash + two_digits(dd2)),
            );
            crate::order::lemma_lex_concat_eqlen(
                two_digits(m1),
                two_digits(m2),
                dash + two_digits(dd1),
                dash + two_digits(dd2),
            );
            crate::order::lemma_lex_concat_eqlen(
                dash,
                dash,
                two_digits(dd1),
                two_digits(dd2),
            );
            crate::date::lemma_two_digits_order(y1, y2);
            crate::date::lemma_two_digits_order(m1, m2);
            crate::date::lemma_two_digits_order(dd1, dd2);
            crate::date::lemma_two_digits_order(y2, y1);
            crate::date::lemma_two_digits_order(m2, m1);
            crate::date::lemma_two_digits_order(dd2, dd1);
            let j1 = two_digits(y1) + r1;
            let j2 = two_digits(y2) + r2;
            crate::order::lemma_lex_concat_eqlen(two_digits(y2), two_digits(y1), r2, r1);
            crate::order::lemma_lex_concat_eqlen(
                dash,
                dash,
                two_digits(m2) + (dash + two_digits(dd2)),
                two_digits(m1) + (dash + two_digits(dd1)),
            );
            crate::order::lemma_lex_concat_eqlen(
                two_digits(m2),
                two_digits(m1),
                dash + two_digits(dd2),
                dash + two_digits(dd1),
            );
            crate::order::lemma_lex_concat_eqlen(
                dash,
                dash,
                two_digits(dd2),
                two_digits(dd1),
            );
        },
        NoteType::Monthly => {
            let y1 = d1.year as int % 100;
            let y2 = d2.year as int % 100;
            let m1 = d1.month as int;
            let m2 = d2.month as int;
            let r1 = dash + two_digits(m1);
            let r2 = dash + two_digits(m2);
            assert(i1 =~= two_digits(y1) + r1);
            assert(i2 =~= two_digits(y2) + r2);
            crate::order::lemma_lex_concat_eqlen(two_digits(y1), two_digits(y2), r1, r2);
            crate::order::lemma_lex_concat_eqlen(dash, dash, two_digits(m1), two_digits(m2));
            crate::order::lemma_lex_concat_eqlen(two_digits(y2), two_digits(y1), r2, r1);
            crate::order::lemma_lex_concat_eqlen(dash, dash, two_digits(m2), two_digits(m1));
            crate::date::lemma_two_digits_order(y1, y2);
            crate::date::lemma_two_digits_order(m1, m2);
            crate::date::lemma_two_digits_order(y2, y1);
            crate::date::lemma_two_digits_order(m2, m1);
        },
        NoteType::Yearly => {
            crate::date::lemma_four_digits_order(d1.year as int, d2.year as int);
            crate::date::lemma_four_digits_order(d2.year as int, d1.year as int);
        },
        NoteType::Someday => {},
    }
}

} // verus!
