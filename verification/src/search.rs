//! Search support: extracting a date key from a result line's path,
//! normalizing task text, and deduplicating recurring tasks so that each is
//! reported once, at its most recent occurrence. The text-search client
//! itself is run by the binary; this module works on the lines it returns.

use vstd::prelude::*;

use crate::lines::{
    done_prefix, lines_of, open_prefix, split_lines, starts_with, trim_bytes, trim_spec,
};
use crate::order::{lex_le, lex_lt};

verus! {

/// The position of the first colon, or the length when there is none.
pub open spec fn find_colon(l: Seq<u8>) -> int
    decreases l.len(),
{
    if l.len() == 0 {
        0
    } else if l[0] == ':' as u8 {
        0
    } else {
        1 + find_colon(l.skip(1))
    }
}

/// `find_colon` is the position of the first colon.
pub proof fn lemma_find_colon_at(l: Seq<u8>, i: int)
    requires
        0 <= i <= l.len(),
        forall|j: int| 0 <= j < i ==> l[j] != ':' as u8,
        i == l.len() || l[i] == ':' as u8,
    ensures
        find_colon(l) == i,
    decreases i,
{
    if i == 0 {
    } else {
        assert(l[0] != ':' as u8);
        lemma_find_colon_at(l.skip(1), i - 1);
    }
}

/// Whether the line has a path part at all.
pub open spec fn has_colon(l: Seq<u8>) -> bool {
    find_colon(l) < l.len()
}

/// The path part of a search line: everything before the first colon.
pub open spec fn path_of(l: Seq<u8>) -> Seq<u8> {
    l.take(find_colon(l))
}

/// The matched text of a search line: everything after the first colon.
pub open spec fn rest_of(l: Seq<u8>) -> Seq<u8> {
    l.skip(find_colon(l) + 1)
}

/// The filename component of a path: everything after its last slash.
pub open spec fn basename(p: Seq<u8>) -> Seq<u8>
    decreases p.len(),
{
    if p.len() == 0 {
        p
    } else if p.last() == '/' as u8 {
        Seq::empty()
    } else {
        basename(p.drop_last()).push(p.last())
    }
}

/// The basename is the part after the last slash.
pub proof fn lemma_basename_skip(p: Seq<u8>, k: int)
    requires
        0 <= k <= p.len(),
        k == 0 || p[k - 1] == '/' as u8,
        forall|j: int| k <= j < p.len() ==> p[j] != '/' as u8,
    ensures
        basename(p) == p.skip(k),
    decreases p.len() - k,
{
    if k == p.len() {
        if k == 0 {
            assert(p.skip(0) =~= p);
        } else {
            assert(p.last() == '/' as u8);
            assert(basename(p) =~= p.skip(k));
        }
    } else {
        assert(p.last() != '/' as u8);
        assert(forall|j: int| k <= j < p.drop_last().len() ==> p.drop_last()[j] != '/' as u8);
        lemma_basename_skip(p.drop_last(), k);
        assert(basename(p) =~= p.drop_last().skip(k).push(p.last()));
        assert(p.drop_last().skip(k).push(p.last()) =~= p.skip(k));
    }
}

/// A filename with its `.md` suffix removed; nothing when it does not end in
/// `.md`.
pub open spec fn strip_md(f: Seq<u8>) -> Option<Seq<u8>> {
    if f.len() >= 3 && f.skip(f.len() - 3) == seq!['.' as u8, 'm' as u8, 'd' as u8] {
        Some(f.take(f.len() - 3))
    } else {
        None
    }
}

/// The date key of a search line's path: the filename with its `.md` suffix
/// removed. Identifiers sort chronologically, so keys can be compared as
/// bytes.
pub open spec fn date_key_spec(p: Seq<u8>) -> Option<Seq<u8>> {
    strip_md(basename(p))
}

/// Extracts the date key of a search line's path.
pub fn date_key_from_path(path: &Vec<u8>) -> (r: Option<Vec<u8>>)
    ensures
        match r {
            Some(s) => date_key_spec(path@) == Some(s@),
            None => date_key_spec(path@) is None,
        },
{
    let n = path.len();
    let mut k: usize = n;
    while k > 0 && path[k - 1] != '/' as u8
        invariant
            0 <= k <= n,
            n == path@.len(),
            forall|j: int| k <= j < n ==> path@[j] != '/' as u8,
        decreases k,
    {
        k = k - 1;
    }
    proof {
        lemma_basename_skip(path@, k as int);
    }
    let blen = n - k;
    if blen < 3 {
        return None;
    }
    if path[n - 3] == '.' as u8 && path[n - 2] == 'm' as u8 && path[n - 1] == 'd' as u8 {
        proof {
            assert(basename(path@).skip(blen - 3) =~= path@.skip(n - 3));
            assert(path@.skip(n - 3) =~= seq!['.' as u8, 'm' as u8, 'd' as u8]);
        }
        let mut out: Vec<u8> = Vec::new();
        let mut j: usize = k;
        while j < n - 3
            invariant
                k <= j <= n - 3,
                n == path@.len(),
                n - k >= 3,
                out@ == path@.subrange(k as int, j as int),
            decreases n - 3 - j,
        {
            out.push(path[j]);
            proof {
                assert(out@ =~= path@.subrange(k as int, j as int + 1));
            }
            j = j + 1;
        }
        proof {
            assert(out@ =~= basename(path@).take(blen - 3));
        }
        Some(out)
    } else {
        proof {
            let suffix = basename(path@).skip(blen - 3);
            assert(suffix =~= path@.skip(n - 3));
            if suffix == seq!['.' as u8, 'm' as u8, 'd' as u8] {
                assert(suffix[0] == path@[n - 3]);
                assert(suffix[1] == path@[n - 2]);
                assert(suffix[2] == path@[n - 1]);
            }
        }
        None
    }
}

/// The deduplication key of a task: the text with a leading `- [ ] ` or
/// `- [x] ` marker removed and whitespace trimmed from both ends.
pub open spec fn normalize_spec(t: Seq<u8>) -> Seq<u8> {
    let c = trim_spec(t);
    let stripped = if starts_with(c, open_prefix()) {
        c.skip(6)
    } else if starts_with(c, done_prefix()) {
        c.skip(6)
    } else {
        c
    };
    trim_spec(stripped)
}

/// Normalizes task text to its deduplication key.
pub fn normalize_task(text: &Vec<u8>) -> (r: Vec<u8>)
    ensures
        r@ == normalize_spec(text@),
{
    let c = trim_bytes(text);
    let op: Vec<u8> = vec!['-' as u8, ' ' as u8, '[' as u8, ' ' as u8, ']' as u8, ' ' as u8];
    let dp: Vec<u8> = vec!['-' as u8, ' ' as u8, '[' as u8, 'x' as u8, ']' as u8, ' ' as u8];
    proof {
        assert(op@ =~= open_prefix());
        assert(dp@ =~= done_prefix());
    }
    let stripped: Vec<u8> = if crate::lines::match_at(&c, 0, &op) {
        crate::lines::suffix_bytes(&c, 6)
    } else if crate::lines::match_at(&c, 0, &dp) {
        crate::lines::suffix_bytes(&c, 6)
    } else {
        c
    };
    trim_bytes(&stripped)
}


/// A search line is usable when it has a colon and its path yields a date
/// key.
pub open spec fn line_valid(l: Seq<u8>) -> bool {
    has_colon(l) && date_key_spec(path_of(l)) is Some
}

/// The date key of a usable search line.
pub open spec fn line_key(l: Seq<u8>) -> Seq<u8>
    recommends
        line_valid(l),
{
    date_key_spec(path_of(l)).unwrap()
}

/// The deduplication key of a search line's task text.
pub open spec fn line_task(l: Seq<u8>) -> Seq<u8> {
    normalize_spec(rest_of(l))
}

/// Line `i` survives deduplication: it is usable, no occurrence of its task
/// anywhere has a greater date key, and no earlier occurrence has an equal
/// one — so per task exactly the first occurrence with the greatest key
/// survives.
pub open spec fn survivor(ls: Seq<Seq<u8>>, i: int) -> bool {
    &&& 0 <= i < ls.len()
    &&& line_valid(ls[i])
    &&& forall|j: int|
        0 <= j < ls.len() && line_valid(#[trigger] ls[j]) && line_task(ls[j]) == line_task(ls[i])
            ==> lex_le(line_key(ls[j]), line_key(ls[i]))
    &&& forall|j: int|
        0 <= j < i && line_valid(#[trigger] ls[j]) && line_task(ls[j]) == line_task(ls[i])
            ==> lex_lt(line_key(ls[j]), line_key(ls[i]))
}

/// Each task has at most one surviving occurrence.
pub proof fn lemma_survivor_unique(ls: Seq<Seq<u8>>, i1: int, i2: int)
    requires
        survivor(ls, i1),
        survivor(ls, i2),
        line_task(ls[i1]) == line_task(ls[i2]),
    ensures
        i1 == i2,
{
    if i1 < i2 {
        assert(lex_lt(line_key(ls[i1]), line_key(ls[i2])));
        assert(lex_le(line_key(ls[i2]), line_key(ls[i1])));
        crate::order::lemma_lex_lt_le_trans(line_key(ls[i1]), line_key(ls[i2]), line_key(ls[i1]));
        crate::order::lemma_lex_irrefl(line_key(ls[i1]));
    } else if i2 < i1 {
        assert(lex_lt(line_key(ls[i2]), line_key(ls[i1])));
        assert(lex_le(line_key(ls[i1]), line_key(ls[i2])));
        crate::order::lemma_lex_lt_le_trans(line_key(ls[i2]), line_key(ls[i1]), line_key(ls[i2]));
        crate::order::lemma_lex_irrefl(line_key(ls[i2]));
    }
}

/// `l` is one of the surviving lines of `ls`.
pub open spec fn is_survivor_line(ls: Seq<Seq<u8>>, l: Seq<u8>) -> bool {
    exists|i: int| survivor(ls, i) && ls[i] == l
}

/// What deduplication returns, as a sequence of lines: exactly the surviving
/// lines, sorted by date key descending, each once.
pub open spec fn is_dedupe_lines(ls: Seq<Seq<u8>>, out: Seq<Seq<u8>>) -> bool {
    &&& forall|a: int, b: int|
        #![trigger out[a], out[b]]
        0 <= a < b < out.len() ==> lex_le(line_key(out[b]), line_key(out[a]))
    &&& forall|t: int|
        #![trigger out[t]]
        0 <= t < out.len() ==> is_survivor_line(ls, out[t])
    &&& forall|i: int|
        #![trigger survivor(ls, i)]
        survivor(ls, i) ==> exists|t: int| 0 <= t < out.len() && out[t] == ls[i]
    &&& forall|a: int, b: int|
        #![trigger out[a], out[b]]
        0 <= a < b < out.len() ==> out[a] != out[b]
}

/// Splits a search line into its date key and task key, when it is usable.
fn line_parts(l: &Vec<u8>) -> (r: Option<(Vec<u8>, Vec<u8>)>)
    ensures
        match r {
            Some(kt) => line_valid(l@) && kt.0@ == line_key(l@) && kt.1@ == line_task(l@),
            None => !line_valid(l@),
        },
{
    let mut c: usize = 0;
    while c < l.len() && l[c] != ':' as u8
        invariant
            0 <= c <= l@.len(),
            forall|j: int| 0 <= j < c ==> l@[j] != ':' as u8,
        decreases l@.len() - c,
    {
        c = c + 1;
    }
    proof {
        lemma_find_colon_at(l@, c as int);
    }
    if c == l.len() {
        return None;
    }
    let path = crate::lines::prefix_bytes(l, c);
    let rest = crate::lines::suffix_bytes(l, c + 1);
    match date_key_from_path(&path) {
        None => None,
        Some(key) => {
            let task = normalize_task(&rest);
            Some((key, task))
        },
    }
}


/// Occurrence `j` does not beat occurrence `i`: either it is another task,
/// or its key is no greater, strictly smaller when it comes earlier.
spec fn no_better(ls: Seq<Seq<u8>>, i: int, j: int) -> bool {
    (line_valid(ls[j]) && line_task(ls[j]) == line_task(ls[i])) ==> (lex_le(
        line_key(ls[j]),
        line_key(ls[i]),
    ) && (j < i ==> lex_lt(line_key(ls[j]), line_key(ls[i]))))
}

/// Whether line `i` survives deduplication, given its parts.
fn is_survivor_at(lines: &Vec<Vec<u8>>, i: usize, key_i: &Vec<u8>, task_i: &Vec<u8>) -> (r: bool)
    requires
        i < lines.deep_view().len(),
        line_valid(lines.deep_view()[i as int]),
        key_i@ == line_key(lines.deep_view()[i as int]),
        task_i@ == line_task(lines.deep_view()[i as int]),
    ensures
        r == survivor(lines.deep_view(), i as int),
{
    let ghost ld = lines.deep_view();
    proof {
        assert forall|k: int| 0 <= k < ld.len() implies ld[k] == lines@[k]@ by {
            assert(ld[k] =~= lines@[k]@);
        }
    }
    let mut j: usize = 0;
    while j < lines.len()
        invariant
            0 <= j <= ld.len(),
            ld == lines.deep_view(),
            ld.len() == lines@.len(),
            forall|k: int| 0 <= k < ld.len() ==> ld[k] == lines@[k]@,
            i < ld.len(),
            line_valid(ld[i as int]),
            key_i@ == line_key(ld[i as int]),
            task_i@ == line_task(ld[i as int]),
            forall|jj: int| 0 <= jj < j ==> no_better(ld, i as int, jj),
        decreases ld.len() - j,
    {
        match line_parts(&lines[j]) {
            None => {},
            Some(kt) => {
                if crate::lines::eq_bytes(&kt.1, task_i) {
                    proof {
                        crate::order::lemma_lex_total(kt.0@, key_i@);
                    }
                    if j < i {
                        if crate::order::lex_le_bytes(key_i, &kt.0) {
                            proof {
                                if survivor(ld, i as int) {
                                    assert(lex_lt(line_key(ld[j as int]), line_key(ld[i as int])));
                                    crate::order::lemma_lex_lt_le_trans(kt.0@, key_i@, kt.0@);
                                    crate::order::lemma_lex_irrefl(kt.0@);
                                }
                            }
                            return false;
                        }
                    } else if j > i {
                        if !crate::order::lex_le_bytes(&kt.0, key_i) {
                            proof {
                                if survivor(ld, i as int) {
                                    assert(lex_le(line_key(ld[j as int]), line_key(ld[i as int])));
                                }
                            }
                            return false;
                        }
                    }
                }
            },
        }
        proof {
            if j < i {
                assert(no_better(ld, i as int, j as int));
            }
        }
        j = j + 1;
    }
    proof {
        assert forall|jj: int|
            0 <= jj < ld.len() && line_valid(#[trigger] ld[jj]) && line_task(ld[jj]) == line_task(
            ld[i as int]) implies lex_le(line_key(ld[jj]), line_key(ld[i as int])) by {
            assert(no_better(ld, i as int, jj));
        }
        assert forall|jj: int|
            0 <= jj < i && line_valid(#[trigger] ld[jj]) && line_task(ld[jj]) == line_task(
            ld[i as int]) implies lex_lt(line_key(ld[jj]), line_key(ld[i as int])) by {
            assert(no_better(ld, i as int, jj));
        }
        assert(survivor(ld, i as int));
    }
    true
}


/// `svp`/`svi` name surviving lines of `ld` in increasing index order,
/// together with their date keys.
spec fn sv_ok(ld: Seq<Seq<u8>>, svp: Seq<(Vec<u8>, Vec<u8>)>, svi: Seq<int>) -> bool {
    &&& svi.len() == svp.len()
    &&& forall|t: int| 0 <= t < svi.len() ==> 0 <= #[trigger] svi[t] < ld.len()
    &&& forall|t1: int, t2: int|
        #![trigger svi[t1], svi[t2]]
        0 <= t1 < t2 < svi.len() ==> svi[t1] < svi[t2]
    &&& forall|t: int| 0 <= t < svi.len() ==> survivor(ld, #[trigger] svi[t])
    &&& forall|t: int|
        0 <= t < svp.len() ==> (#[trigger] svp[t]).1@ == ld[svi[t]] && svp[t].0@ == line_key(
            ld[svi[t]],
        )
}

/// Collects the surviving lines, in increasing index order.
fn collect_survivors(lines: &Vec<Vec<u8>>) -> (r: (Vec<(Vec<u8>, Vec<u8>)>, Ghost<Seq<int>>))
    ensures
        sv_ok(lines.deep_view(), r.0@, r.1@),
        forall|idx: int| #[trigger] survivor(lines.deep_view(), idx) ==> r.1@.contains(idx),
{
    let ghost ld = lines.deep_view();
    proof {
        assert forall|k: int| 0 <= k < ld.len() implies ld[k] == lines@[k]@ by {
            assert(ld[k] =~= lines@[k]@);
        }
    }
    let mut sv: Vec<(Vec<u8>, Vec<u8>)> = Vec::new();
    let ghost mut svidx: Seq<int> = Seq::empty();
    let mut i: usize = 0;
    while i < lines.len()
        invariant
            0 <= i <= ld.len(),
            ld == lines.deep_view(),
            ld.len() == lines@.len(),
            forall|k: int| 0 <= k < ld.len() ==> ld[k] == lines@[k]@,
            sv_ok(ld, sv@, svidx),
            forall|t: int| 0 <= t < svidx.len() ==> #[trigger] svidx[t] < i,
            forall|idx: int| 0 <= idx < i && #[trigger] survivor(ld, idx) ==> svidx.contains(idx),
        decreases ld.len() - i,
    {
        match line_parts(&lines[i]) {
            None => {
                proof {
                    assert(!survivor(ld, i as int));
                }
            },
            Some(kt) => {
                if is_survivor_at(lines, i, &kt.0, &kt.1) {
                    let line = crate::lines::copy_bytes(&lines[i]);
                    let ghost old_svidx = svidx;
                    sv.push((kt.0, line));
                    proof {
                        svidx = svidx.push(i as int);
                        assert forall|idx: int|
                            0 <= idx < i + 1 && #[trigger] survivor(ld, idx) implies svidx.contains(
                            idx) by {
                            if idx < i {
                                let t = choose|t: int|
                                    0 <= t < old_svidx.len() && old_svidx[t] == idx;
                                assert(svidx[t] == idx);
                            } else {
                                assert(svidx[svidx.len() - 1] == idx);
                            }
                        }
                    }
                } else {
                    proof {
                        assert(!survivor(ld, i as int));
                    }
                }
            },
        }
        i = i + 1;
    }
    (sv, Ghost(svidx))
}

/// `op`/`oi` name surviving lines of `ld`, sorted by date key descending,
/// each index once.
spec fn sorted_ok(ld: Seq<Seq<u8>>, op: Seq<(Vec<u8>, Vec<u8>)>, oi: Seq<int>) -> bool {
    &&& oi.len() == op.len()
    &&& forall|t: int|
        0 <= t < op.len() ==> (#[trigger] op[t]).1@ == ld[oi[t]] && op[t].0@ == line_key(ld[oi[t]])
            && survivor(ld, oi[t])
    &&& forall|a: int, b: int|
        #![trigger op[a], op[b]]
        0 <= a < b < op.len() ==> lex_le(op[b].0@, op[a].0@)
    &&& forall|a: int, b: int|
        #![trigger oi[a], oi[b]]
        0 <= a < b < oi.len() ==> oi[a] != oi[b]
}

/// Sorts the surviving lines by date key descending (insertion sort).
fn sort_pairs_desc(
    Ghost(ld): Ghost<Seq<Seq<u8>>>,
    sv: Vec<(Vec<u8>, Vec<u8>)>,
    Ghost(svi): Ghost<Seq<int>>,
) -> (r: (Vec<(Vec<u8>, Vec<u8>)>, Ghost<Seq<int>>))
    requires
        sv_ok(ld, sv@, svi),
    ensures
        sorted_ok(ld, r.0@, r.1@),
        forall|k: int| 0 <= k < svi.len() ==> r.1@.contains(#[trigger] svi[k]),
{
    let mut out_p: Vec<(Vec<u8>, Vec<u8>)> = Vec::new();
    let ghost mut oidx: Seq<int> = Seq::empty();
    let mut s: usize = 0;
    while s < sv.len()
        invariant
            0 <= s <= sv@.len(),
            sv_ok(ld, sv@, svi),
            sorted_ok(ld, out_p@, oidx),
            forall|t: int|
                0 <= t < oidx.len() ==> exists|k: int| 0 <= k < s && svi[k] == #[trigger] oidx[t],
            forall|k: int| 0 <= k < s ==> oidx.contains(#[trigger] svi[k]),
        decreases sv@.len() - s,
    {
        let key = crate::lines::copy_bytes(&sv[s].0);
        let line = crate::lines::copy_bytes(&sv[s].1);
        let mut pos: usize = 0;
        while pos < out_p.len() && crate::order::lex_le_bytes(&key, &out_p[pos].0)
            invariant
                0 <= pos <= out_p@.len(),
                forall|a: int| 0 <= a < pos ==> lex_le(key@, (#[trigger] out_p@[a]).0@),
            decreases out_p@.len() - pos,
        {
            pos = pos + 1;
        }
        let ghost old_out = out_p@;
        let ghost old_oidx = oidx;
        proof {
            if pos < out_p@.len() {
                crate::order::lemma_lex_total(key@, out_p@[pos as int].0@);
                crate::order::lemma_lex_irrefl(key@);
                assert(lex_lt(out_p@[pos as int].0@, key@));
            }
        }
        out_p.insert(pos, (key, line));
        proof {
            oidx = old_oidx.insert(pos as int, svi[s as int]);
            old_out.insert_ensures(pos as int, out_p@[pos as int]);
            old_oidx.insert_ensures(pos as int, svi[s as int]);
            assert(out_p@[pos as int].0@ == key@ && out_p@[pos as int].1@ == line@);
            assert forall|t: int|
                0 <= t < oidx.len() implies exists|k: int|
                0 <= k < s + 1 && svi[k] == #[trigger] oidx[t] by {
                if t < pos {
                    assert(oidx[t] == old_oidx[t]);
                    let k = choose|k: int| 0 <= k < s && svi[k] == old_oidx[t];
                    assert(svi[k] == oidx[t]);
                } else if t == pos {
                    assert(oidx[t] == svi[s as int]);
                } else {
                    assert(oidx[t] == old_oidx[t - 1]);
                    let k = choose|k: int| 0 <= k < s && svi[k] == old_oidx[t - 1];
                    assert(svi[k] == oidx[t]);
                }
            }
            assert forall|k: int| 0 <= k < s + 1 implies oidx.contains(#[trigger] svi[k]) by {
                if k < s {
                    let t = choose|t: int| 0 <= t < old_oidx.len() && old_oidx[t] == svi[k];
                    if t < pos {
                        assert(oidx[t] == svi[k]);
                    } else {
                        assert(oidx[t + 1] == svi[k]);
                    }
                } else {
                    assert(oidx[pos as int] == svi[k]);
                }
            }
            assert forall|t: int|
                0 <= t < out_p@.len() implies (#[trigger] out_p@[t]).1@ == ld[oidx[t]]
                && out_p@[t].0@ == line_key(ld[oidx[t]]) && survivor(ld, oidx[t]) by {
                if t < pos {
                    assert(out_p@[t] == old_out[t]);
                    assert(oidx[t] == old_oidx[t]);
                } else if t == pos {
                    assert(oidx[t] == svi[s as int]);
                } else {
                    assert(out_p@[t] == old_out[t - 1]);
                    assert(oidx[t] == old_oidx[t - 1]);
                }
            }
            assert forall|a: int, b: int|
                #![trigger out_p@[a], out_p@[b]]
                0 <= a < b < out_p@.len() implies lex_le(out_p@[b].0@, out_p@[a].0@) by {
                if a < pos && b < pos {
                    assert(out_p@[a] == old_out[a] && out_p@[b] == old_out[b]);
                } else if a < pos && b == pos {
                    assert(out_p@[a] == old_out[a]);
                    assert(lex_le(key@, old_out[a].0@));
                } else if a < pos && b > pos {
                    assert(out_p@[a] == old_out[a] && out_p@[b] == old_out[b - 1]);
                } else if a == pos {
                    assert(out_p@[b] == old_out[b - 1]);
                    assert(lex_lt(old_out[pos as int].0@, key@));
                    if b - 1 == pos {
                    } else {
                        assert(lex_le(old_out[b - 1].0@, old_out[pos as int].0@));
                        crate::order::lemma_lex_le_lt_trans(
                            old_out[b - 1].0@,
                            old_out[pos as int].0@,
                            key@,
                        );
                    }
                } else {
                    assert(out_p@[a] == old_out[a - 1] && out_p@[b] == old_out[b - 1]);
                }
            }
            assert forall|a: int, b: int|
                #![trigger oidx[a], oidx[b]]
                0 <= a < b < oidx.len() implies oidx[a] != oidx[b] by {
                let na = if a < pos {
                    old_oidx[a]
                } else if a == pos {
                    svi[s as int]
                } else {
                    old_oidx[a - 1]
                };
                let nb = if b < pos {
                    old_oidx[b]
                } else if b == pos {
                    svi[s as int]
                } else {
                    old_oidx[b - 1]
                };
                assert(oidx[a] == na && oidx[b] == nb);
                if a == pos || b == pos {
                    let other = if a == pos {
                        nb
                    } else {
                        na
                    };
                    if other == svi[s as int] {
                        let k = choose|k: int| 0 <= k < s && svi[k] == other;
                        assert(svi[k] < svi[s as int]);
                    }
                }
            }
        }
        s = s + 1;
    }
    (out_p, Ghost(oidx))
}

/// Deduplicates search lines: per task only the first occurrence with the
/// greatest date key is kept, and the kept lines come out sorted by date key
/// descending, each once.
#[verifier::rlimit(100)]
pub fn dedupe_lines(lines: &Vec<Vec<u8>>) -> (out: Vec<Vec<u8>>)
    ensures
        is_dedupe_lines(lines.deep_view(), out.deep_view()),
{
    let ghost ld = lines.deep_view();
    let collected = collect_survivors(lines);
    let ghost svi = collected.1@;
    let sorted = sort_pairs_desc(Ghost(ld), collected.0, collected.1);
    let out_p = sorted.0;
    let ghost oidx = sorted.1@;
    let mut out: Vec<Vec<u8>> = Vec::new();
    let mut t: usize = 0;
    while t < out_p.len()
        invariant
            0 <= t <= out_p@.len(),
            out.deep_view().len() == t,
            forall|a: int| 0 <= a < t ==> out.deep_view()[a] == (#[trigger] out_p@[a]).1@,
        decreases out_p@.len() - t,
    {
        let ghost old_dv = out.deep_view();
        out.push(crate::lines::copy_bytes(&out_p[t].1));
        proof {
            assert(out.deep_view() =~~= old_dv.push(out_p@[t as int].1@));
        }
        t = t + 1;
    }
    proof {
        let odv = out.deep_view();
        assert forall|a: int, b: int|
            #![trigger odv[a], odv[b]]
            0 <= a < b < odv.len() implies lex_le(line_key(odv[b]), line_key(odv[a])) by {
            assert(odv[a] == out_p@[a].1@ && odv[b] == out_p@[b].1@);
            assert((out_p@[a]).1@ == ld[oidx[a]] && out_p@[a].0@ == line_key(ld[oidx[a]]));
            assert((out_p@[b]).1@ == ld[oidx[b]] && out_p@[b].0@ == line_key(ld[oidx[b]]));
        }
        assert forall|tt: int|
            #![trigger odv[tt]]
            0 <= tt < odv.len() implies is_survivor_line(ld, odv[tt]) by {
            assert(odv[tt] == (out_p@[tt]).1@);
            assert(survivor(ld, oidx[tt]) && ld[oidx[tt]] == odv[tt]);
            assert(is_survivor_line(ld, odv[tt]));
        }
        assert forall|i0: int|
            #![trigger survivor(ld, i0)]
            survivor(ld, i0) implies exists|tt: int|
            0 <= tt < odv.len() && odv[tt] == ld[i0] by {
            assert(svi.contains(i0));
            let k = choose|k: int| 0 <= k < svi.len() && svi[k] == i0;
            assert(oidx.contains(svi[k]));
            let tt = choose|tt: int| 0 <= tt < oidx.len() && oidx[tt] == svi[k];
            assert((out_p@[tt]).1@ == ld[oidx[tt]]);
            assert(odv[tt] == ld[i0]);
        }
        assert forall|a: int, b: int|
            #![trigger odv[a], odv[b]]
            0 <= a < b < odv.len() implies odv[a] != odv[b] by {
            if odv[a] == odv[b] {
                assert(odv[a] == (out_p@[a]).1@ && odv[b] == (out_p@[b]).1@);
                assert(ld[oidx[a]] == ld[oidx[b]]);
                assert(survivor(ld, oidx[a]) && survivor(ld, oidx[b]));
                lemma_survivor_unique(ld, oidx[a], oidx[b]);
            }
        }

    }
    out
}


/// Deduplicates raw text-search output: its lines (`path:text`) are reduced
/// to the surviving occurrence per task, sorted by date key descending, and
/// joined by newlines.
pub fn dedupe(results: &Vec<u8>) -> (out: Vec<u8>)
    ensures
        exists|s: Seq<Seq<u8>>|
            is_dedupe_lines(lines_of(results@), s) && out@ == crate::lines::join_nl(s),
{
    let lines = split_lines(results);
    let dl = dedupe_lines(&lines);
    let ghost ddv = dl.deep_view();
    proof {
        assert forall|k: int| 0 <= k < ddv.len() implies ddv[k] == dl@[k]@ by {
            assert(ddv[k] =~= dl@[k]@);
        }
        assert(ddv.take(0) =~= Seq::<Seq<u8>>::empty());
    }
    let mut out: Vec<u8> = Vec::new();
    let mut t: usize = 0;
    while t < dl.len()
        invariant
            0 <= t <= ddv.len(),
            ddv == dl.deep_view(),
            ddv.len() == dl@.len(),
            forall|k: int| 0 <= k < ddv.len() ==> ddv[k] == dl@[k]@,
            out@ == crate::lines::join_nl(ddv.take(t as int)),
        decreases ddv.len() - t,
    {
        proof {
            assert(ddv.take(t as int + 1) =~= ddv.take(t as int).push(ddv[t as int]));
            crate::lines::lemma_join_nl_push(ddv.take(t as int), ddv[t as int]);
        }
        if t > 0 {
            out.push(10u8);
        }
        crate::lines::push_bytes(&mut out, &dl[t]);
        t = t + 1;
    }
    proof {
        assert(ddv.take(ddv.len() as int) =~= ddv);
        assert(lines.deep_view() == lines_of(results@));
        assert(is_dedupe_lines(lines_of(results@), ddv) && out@ == crate::lines::join_nl(ddv));
    }
    out
}

} // verus!
