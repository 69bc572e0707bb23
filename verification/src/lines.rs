//! Byte-level text helpers: splitting content into lines, joining lines,
//! ASCII whitespace trimming, and the checklist markers (`- [ ]`, `- [x]`)
//! that the note logic is built on.

use vstd::prelude::*;

verus! {

/// ASCII whitespace, as used when trimming and when testing for blank lines.
pub open spec fn is_space(b: u8) -> bool {
    b == 32 || (9 <= b <= 13)
}

/// The lines of `rest`, given that the bytes `pre` of the current line have
/// already been read. A final line is reported only if it is non-empty, so a
/// trailing newline does not produce an extra empty line.
pub open spec fn lines_from(pre: Seq<u8>, rest: Seq<u8>) -> Seq<Seq<u8>>
    decreases rest.len(),
{
    if rest.len() == 0 {
        if pre.len() == 0 {
            Seq::empty()
        } else {
            seq![pre]
        }
    } else if rest[0] == 10 {
        seq![pre] + lines_from(Seq::empty(), rest.skip(1))
    } else {
        lines_from(pre.push(rest[0]), rest.skip(1))
    }
}

/// Content split at newline bytes; the terminating newline of the last line
/// is optional, as with `str::lines`.
pub open spec fn lines_of(s: Seq<u8>) -> Seq<Seq<u8>> {
    lines_from(Seq::empty(), s)
}

/// No line reported by `lines_from` contains a newline byte, provided the
/// partial line read so far contains none.
proof fn lemma_lines_from_no_nl(pre: Seq<u8>, rest: Seq<u8>)
    requires
        forall|j: int| 0 <= j < pre.len() ==> pre[j] != 10,
    ensures
        forall|k: int, j: int|
            0 <= k < lines_from(pre, rest).len() && 0 <= j < lines_from(pre, rest)[k].len()
                ==> lines_from(pre, rest)[k][j] != 10,
    decreases rest.len(),
{
    if rest.len() == 0 {
        let all = lines_from(pre, rest);
        assert forall|k: int, j: int| 0 <= k < all.len() && 0 <= j < all[k].len() implies all[k][j]
            != 10 by {
            assert(all[k] == pre);
        }
    } else if rest[0] == 10 {
        lemma_lines_from_no_nl(Seq::empty(), rest.skip(1));
        let all = lines_from(pre, rest);
        let tail = lines_from(Seq::<u8>::empty(), rest.skip(1));
        assert forall|k: int, j: int| 0 <= k < all.len() && 0 <= j < all[k].len() implies all[k][j]
            != 10 by {
            if k == 0 {
                assert(all[k] == pre);
            } else {
                assert(all[k] == tail[k - 1]);
            }
        }
    } else {
        assert(forall|j: int|
            0 <= j < pre.push(rest[0]).len() ==> pre.push(rest[0])[j] != 10);
        lemma_lines_from_no_nl(pre.push(rest[0]), rest.skip(1));
        assert(lines_from(pre, rest) == lines_from(pre.push(rest[0]), rest.skip(1)));
    }
}

/// No line of any content contains a newline byte.
pub proof fn lemma_lines_no_nl(s: Seq<u8>)
    ensures
        forall|k: int, j: int|
            0 <= k < lines_of(s).len() && 0 <= j < lines_of(s)[k].len() ==> lines_of(s)[k][j]
                != 10,
{
    lemma_lines_from_no_nl(Seq::empty(), s);
}

/// Splits content at newline bytes, as `lines_of` describes.
pub fn split_lines(s: &Vec<u8>) -> (r: Vec<Vec<u8>>)
    ensures
        r.deep_view() == lines_of(s@),
        forall|k: int, j: int|
            0 <= k < r.deep_view().len() && 0 <= j < r.deep_view()[k].len()
                ==> r.deep_view()[k][j] != 10,
{
    let mut out: Vec<Vec<u8>> = Vec::new();
    let mut cur: Vec<u8> = Vec::new();
    let mut i: usize = 0;
    proof {
        assert(s@.skip(0) =~= s@);
        assert(out.deep_view() + lines_from(cur@, s@.skip(0)) =~~= lines_of(s@));
    }
    while i < s.len()
        invariant
            0 <= i <= s.len(),
            out.deep_view() + lines_from(cur@, s@.skip(i as int)) == lines_of(s@),
            forall|j: int| 0 <= j < cur@.len() ==> cur@[j] != 10,
            forall|k: int, j: int|
                0 <= k < out.deep_view().len() && 0 <= j < out.deep_view()[k].len()
                    ==> out.deep_view()[k][j] != 10,
        decreases s.len() - i,
    {
        let ghost prev_out = out.deep_view();
        let ghost prev_cur = cur@;
        let b = s[i];
        proof {
            assert(s@.skip(i as int)[0] == s@[i as int]);
            assert(s@.skip(i as int).skip(1) =~= s@.skip(i as int + 1));
        }
        if b == 10 {
            out.push(cur);
            cur = Vec::new();
            proof {
                assert(out.deep_view() =~~= prev_out.push(prev_cur));
                assert(out.deep_view() + lines_from(cur@, s@.skip(i as int + 1)) =~~= prev_out + (
                seq![prev_cur] + lines_from(Seq::empty(), s@.skip(i as int + 1))));
            }
        } else {
            cur.push(b);
        }
        i = i + 1;
    }
    proof {
        assert(s@.skip(s@.len() as int) =~= Seq::<u8>::empty());
    }
    if cur.len() > 0 {
        let ghost prev_out = out.deep_view();
        let ghost prev_cur = cur@;
        out.push(cur);
        proof {
            assert(out.deep_view() =~~= prev_out.push(prev_cur));
            assert(out.deep_view() =~~= prev_out + seq![prev_cur]);
        }
    } else {
        proof {
            assert(out.deep_view() + lines_from(cur@, Seq::<u8>::empty()) =~~= out.deep_view());
        }
    }
    out
}

/// Lines joined by single newline bytes, with no trailing newline.
pub open spec fn join_nl(ls: Seq<Seq<u8>>) -> Seq<u8>
    decreases ls.len(),
{
    if ls.len() == 0 {
        Seq::empty()
    } else if ls.len() == 1 {
        ls[0]
    } else {
        ls[0] + seq![10u8] + join_nl(ls.skip(1))
    }
}

/// Lines joined with a newline byte after every line, trailing one included.
pub open spec fn cat_lines_nl(ls: Seq<Seq<u8>>) -> Seq<u8>
    decreases ls.len(),
{
    if ls.len() == 0 {
        Seq::empty()
    } else {
        ls[0] + seq![10u8] + cat_lines_nl(ls.skip(1))
    }
}

/// How `join_nl` grows when one more line is appended.
pub proof fn lemma_join_nl_push(ls: Seq<Seq<u8>>, l: Seq<u8>)
    ensures
        join_nl(ls.push(l)) == if ls.len() == 0 {
            l
        } else {
            join_nl(ls) + seq![10u8] + l
        },
    decreases ls.len(),
{
    if ls.len() == 0 {
        assert(ls.push(l).len() == 1);
        assert(ls.push(l)[0] == l);
    } else {
        assert(ls.push(l).skip(1) =~= ls.skip(1).push(l));
        lemma_join_nl_push(ls.skip(1), l);
        if ls.len() == 1 {
            assert(ls.push(l)[0] == ls[0]);
            assert(join_nl(ls.push(l)) == ls[0] + seq![10u8] + join_nl(ls.skip(1).push(l)));
            assert(ls.skip(1).len() == 0);
            assert(join_nl(ls) == ls[0]);
        } else {
            assert(ls.push(l)[0] == ls[0]);
            assert(join_nl(ls) + seq![10u8] + l =~= ls[0] + seq![10u8] + (join_nl(ls.skip(1))
                + seq![10u8] + l));
        }
    }
}

/// How `cat_lines_nl` grows when one more line is appended.
pub proof fn lemma_cat_lines_nl_push(ls: Seq<Seq<u8>>, l: Seq<u8>)
    ensures
        cat_lines_nl(ls.push(l)) == cat_lines_nl(ls) + l + seq![10u8],
    decreases ls.len(),
{
    if ls.len() == 0 {
        assert(ls.push(l)[0] == l);
        assert(ls.push(l).skip(1) =~= Seq::<Seq<u8>>::empty());
        assert(cat_lines_nl(Seq::<Seq<u8>>::empty()) == Seq::<u8>::empty());
        assert(cat_lines_nl(ls.push(l)) == l + seq![10u8] + cat_lines_nl(ls.push(l).skip(1)));
        assert(cat_lines_nl(ls.push(l)) =~= cat_lines_nl(ls) + l + seq![10u8]);
    } else {
        assert(ls.push(l).skip(1) =~= ls.skip(1).push(l));
        lemma_cat_lines_nl_push(ls.skip(1), l);
        assert(ls.push(l)[0] == ls[0]);
        assert(cat_lines_nl(ls) + l + seq![10u8] =~= ls[0] + seq![10u8] + (cat_lines_nl(ls.skip(1))
            + l + seq![10u8]));
    }
}

/// The `p` bytes occur in `s` starting at position `i`.
pub open spec fn contains_at(s: Seq<u8>, i: int, p: Seq<u8>) -> bool {
    0 <= i && i + p.len() <= s.len() && s.subrange(i, i + p.len()) == p
}

/// The `p` bytes occur somewhere in `s`.
pub open spec fn contains_seq(s: Seq<u8>, p: Seq<u8>) -> bool {
    exists|i: int| contains_at(s, i, p)
}

/// `s` begins with the bytes of `p`.
pub open spec fn starts_with(s: Seq<u8>, p: Seq<u8>) -> bool {
    p.len() <= s.len() && s.subrange(0, p.len() as int) == p
}

/// The open-task marker `- [ ]`.
pub open spec fn open_marker() -> Seq<u8> {
    seq!['-' as u8, ' ' as u8, '[' as u8, ' ' as u8, ']' as u8]
}

/// The done-task marker `- [x]`.
pub open spec fn done_marker() -> Seq<u8> {
    seq!['-' as u8, ' ' as u8, '[' as u8, 'x' as u8, ']' as u8]
}

/// The open-task marker followed by one space, `- [ ] `.
pub open spec fn open_prefix() -> Seq<u8> {
    open_marker() + seq![' ' as u8]
}

/// The done-task marker followed by one space, `- [x] `.
pub open spec fn done_prefix() -> Seq<u8> {
    done_marker() + seq![' ' as u8]
}

/// The open-task marker as a vector.
pub fn open_marker_bytes() -> (r: Vec<u8>)
    ensures
        r@ == open_marker(),
{
    let v: Vec<u8> = vec!['-' as u8, ' ' as u8, '[' as u8, ' ' as u8, ']' as u8];
    proof {
        assert(v@ =~= open_marker());
    }
    v
}

/// The done-task marker as a vector.
pub fn done_marker_bytes() -> (r: Vec<u8>)
    ensures
        r@ == done_marker(),
{
    let v: Vec<u8> = vec!['-' as u8, ' ' as u8, '[' as u8, 'x' as u8, ']' as u8];
    proof {
        assert(v@ =~= done_marker());
    }
    v
}

/// Whether the bytes of `p` stand in `v` at position `i`.
pub fn match_at(v: &Vec<u8>, i: usize, p: &Vec<u8>) -> (r: bool)
    ensures
        r == contains_at(v@, i as int, p@),
{
    if p.len() > v.len() || i > v.len() - p.len() {
        return false;
    }
    let mut j: usize = 0;
    while j < p.len()
        invariant
            0 <= j <= p.len(),
            i + p.len() <= v.len(),
            forall|t: int| 0 <= t < j ==> v@[i + t] == p@[t],
        decreases p.len() - j,
    {
        if v[i + j] != p[j] {
            proof {
                assert(v@.subrange(i as int, i + p@.len())[j as int] == v@[i + j]);
            }
            return false;
        }
        j = j + 1;
    }
    proof {
        assert(v@.subrange(i as int, i + p@.len()) =~= p@);
    }
    true
}

/// Whether a line contains the open-task marker `- [ ]`.
pub fn contains_open_marker(l: &Vec<u8>) -> (r: bool)
    ensures
        r == contains_seq(l@, open_marker()),
{
    let m = open_marker_bytes();
    let mut i: usize = 0;
    while i < l.len()
        invariant
            0 <= i <= l.len(),
            m@ == open_marker(),
            forall|t: int| 0 <= t < i ==> !contains_at(l@, t, open_marker()),
        decreases l.len() - i,
    {
        if match_at(l, i, &m) {
            return true;
        }
        i = i + 1;
    }
    proof {
        assert forall|t: int| !contains_at(l@, t, open_marker()) by {
            if 0 <= t < l@.len() {
            } else {
            }
        }
    }
    false
}

/// Reading a prefix without newline bytes extends the current line.
pub proof fn lemma_lines_from_append(pre: Seq<u8>, x: Seq<u8>, y: Seq<u8>)
    requires
        forall|j: int| 0 <= j < x.len() ==> x[j] != 10,
    ensures
        lines_from(pre, x + y) == lines_from(pre + x, y),
    decreases x.len(),
{
    if x.len() == 0 {
        assert(x + y =~= y);
        assert(pre + x =~= pre);
    } else {
        assert((x + y).len() > 0);
        assert((x + y)[0] == x[0]);
        assert(x[0] != 10);
        assert((x + y).skip(1) =~= x.skip(1) + y);
        lemma_lines_from_append(pre.push(x[0]), x.skip(1), y);
        assert(pre.push(x[0]) + x.skip(1) =~= pre + x);
    }
}

/// Writing lines out with a newline after each and splitting again gives the
/// lines back, provided none contains a newline byte.
pub proof fn lemma_lines_of_cat(ks: Seq<Seq<u8>>)
    requires
        forall|k: int, j: int| 0 <= k < ks.len() && 0 <= j < ks[k].len() ==> ks[k][j] != 10,
    ensures
        lines_of(cat_lines_nl(ks)) == ks,
    decreases ks.len(),
{
    if ks.len() == 0 {
        assert(lines_of(cat_lines_nl(ks)) =~= ks);
    } else {
        let rest = ks.skip(1);
        let tail = seq![10u8] + cat_lines_nl(rest);
        assert(cat_lines_nl(ks) == ks[0] + seq![10u8] + cat_lines_nl(rest));
        assert(ks[0] + seq![10u8] + cat_lines_nl(rest) =~= ks[0] + tail);
        lemma_lines_from_append(Seq::empty(), ks[0], tail);
        assert(Seq::<u8>::empty() + ks[0] =~= ks[0]);
        assert(tail[0] == 10);
        assert(lines_from(ks[0], tail) == seq![ks[0]] + lines_from(Seq::empty(), tail.skip(1)));
        assert(tail.skip(1) =~= cat_lines_nl(rest));
        assert forall|k: int, j: int|
            0 <= k < rest.len() && 0 <= j < rest[k].len() implies rest[k][j] != 10 by {
            assert(rest[k] == ks[k + 1]);
        }
        lemma_lines_of_cat(rest);
        assert(lines_of(cat_lines_nl(ks)) =~= seq![ks[0]] + rest);
        assert(seq![ks[0]] + rest =~= ks);
    }
}

/// End-trimming input free of newline bytes leaves it free of them.
pub proof fn lemma_trim_end_no_nl(s: Seq<u8>)
    requires
        forall|j: int| 0 <= j < s.len() ==> s[j] != 10,
    ensures
        forall|j: int| 0 <= j < trim_end_spec(s).len() ==> trim_end_spec(s)[j] != 10,
    decreases s.len(),
{
    if s.len() > 0 && is_space(s.last()) {
        assert(forall|j: int| 0 <= j < s.drop_last().len() ==> s.drop_last()[j] != 10);
        lemma_trim_end_no_nl(s.drop_last());
        assert(trim_end_spec(s) == trim_end_spec(s.drop_last()));
    }
}

/// `s` with its leading ASCII whitespace removed.
pub open spec fn trim_start_spec(s: Seq<u8>) -> Seq<u8>
    decreases s.len(),
{
    if s.len() > 0 && is_space(s[0]) {
        trim_start_spec(s.skip(1))
    } else {
        s
    }
}

/// `s` with its trailing ASCII whitespace removed.
pub open spec fn trim_end_spec(s: Seq<u8>) -> Seq<u8>
    decreases s.len(),
{
    if s.len() > 0 && is_space(s.last()) {
        trim_end_spec(s.drop_last())
    } else {
        s
    }
}

/// `s` with ASCII whitespace removed from both ends.
pub open spec fn trim_spec(s: Seq<u8>) -> Seq<u8> {
    trim_end_spec(trim_start_spec(s))
}

/// A line is blank when nothing but whitespace is on it.
pub open spec fn is_blank(l: Seq<u8>) -> bool {
    trim_spec(l).len() == 0
}

/// A line is a done task when, after leading whitespace, it starts `- [x]`.
pub open spec fn is_done_line(l: Seq<u8>) -> bool {
    starts_with(trim_start_spec(l), done_marker())
}

/// Trimming the start is dropping the leading run of whitespace.
pub proof fn lemma_trim_start_is_skip(s: Seq<u8>, a: int)
    requires
        0 <= a <= s.len(),
        forall|k: int| 0 <= k < a ==> is_space(s[k]),
        a == s.len() || !is_space(s[a]),
    ensures
        trim_start_spec(s) == s.skip(a),
    decreases a,
{
    if a == 0 {
        assert(s.skip(0) =~= s);
    } else {
        assert(is_space(s[0]));
        lemma_trim_start_is_skip(s.skip(1), a - 1);
        assert(s.skip(1).skip(a - 1) =~= s.skip(a));
    }
}

/// Trimming the end is keeping everything before the trailing run of
/// whitespace.
pub proof fn lemma_trim_end_is_take(s: Seq<u8>, b: int)
    requires
        0 <= b <= s.len(),
        forall|k: int| b <= k < s.len() ==> is_space(s[k]),
        b == 0 || !is_space(s[b - 1]),
    ensures
        trim_end_spec(s) == s.take(b),
    decreases s.len() - b,
{
    if b == s.len() {
        assert(s.take(b) =~= s);
    } else {
        assert(is_space(s.last()));
        lemma_trim_end_is_take(s.drop_last(), b);
        assert(s.drop_last().take(b) =~= s.take(b));
    }
}

/// The end-trimmed bytes are empty exactly when every byte is whitespace.
pub proof fn lemma_trim_end_empty_iff(s: Seq<u8>)
    ensures
        trim_end_spec(s).len() == 0 <==> (forall|k: int| 0 <= k < s.len() ==> is_space(s[k])),
    decreases s.len(),
{
    if s.len() > 0 && is_space(s.last()) {
        lemma_trim_end_empty_iff(s.drop_last());
        assert forall|k: int|
            0 <= k < s.drop_last().len() implies s.drop_last()[k] == s[k] by {}
    }
}

/// Whether a byte is ASCII whitespace.
pub fn is_space_byte(b: u8) -> (r: bool)
    ensures
        r == is_space(b),
{
    b == 32 || (9 <= b && b <= 13)
}

/// The position where the leading whitespace of `v` ends.
pub fn scan_spaces(v: &Vec<u8>) -> (a: usize)
    ensures
        0 <= a <= v@.len(),
        forall|k: int| 0 <= k < a ==> is_space(v@[k]),
        a == v@.len() || !is_space(v@[a as int]),
        trim_start_spec(v@) == v@.skip(a as int),
{
    let mut a: usize = 0;
    while a < v.len() && is_space_byte(v[a])
        invariant
            0 <= a <= v@.len(),
            forall|k: int| 0 <= k < a ==> is_space(v@[k]),
        decreases v@.len() - a,
    {
        a = a + 1;
    }
    proof {
        lemma_trim_start_is_skip(v@, a as int);
    }
    a
}

/// The position where the trailing whitespace of `v` begins, scanning no
/// further left than `low`.
fn scan_spaces_rev(v: &Vec<u8>, low: usize) -> (b: usize)
    requires
        low <= v@.len(),
    ensures
        low <= b <= v@.len(),
        forall|k: int| b <= k < v@.len() ==> is_space(v@[k]),
        b == low || !is_space(v@[b - 1]),
    decreases v@.len(),
{
    let mut b: usize = v.len();
    while b > low && is_space_byte(v[b - 1])
        invariant
            low <= b <= v@.len(),
            forall|k: int| b <= k < v@.len() ==> is_space(v@[k]),
        decreases b,
    {
        b = b - 1;
    }
    b
}

/// Whether a line is blank.
pub fn is_blank_line(l: &Vec<u8>) -> (r: bool)
    ensures
        r == is_blank(l@),
{
    let a = scan_spaces(l);
    proof {
        lemma_trim_end_empty_iff(trim_start_spec(l@));
        if a < l@.len() {
            assert(trim_start_spec(l@)[0] == l@[a as int]);
        } else {
            assert(l@.skip(a as int).len() == 0);
        }
    }
    a == l.len()
}

/// Whether a line is a done task.
pub fn is_done_task_line(l: &Vec<u8>) -> (r: bool)
    ensures
        r == is_done_line(l@),
{
    let a = scan_spaces(l);
    let m = done_marker_bytes();
    let r = match_at(l, a, &m);
    proof {
        let t = trim_start_spec(l@);
        if a + 5 <= l@.len() {
            assert(t.subrange(0, 5) =~= l@.subrange(a as int, a as int + 5));
        }
    }
    r
}

/// `v` with ASCII whitespace removed from both ends.
pub fn trim_bytes(v: &Vec<u8>) -> (r: Vec<u8>)
    ensures
        r@ == trim_spec(v@),
{
    let a = scan_spaces(v);
    let b = scan_spaces_rev(v, a);
    proof {
        if a < v@.len() && b == a {
            assert(is_space(v@[a as int]));
            assert(false);
        }
        let t = trim_start_spec(v@);
        lemma_trim_end_is_take(t, b - a);
        assert(t.take(b - a) =~= v@.subrange(a as int, b as int));
    }
    let mut out: Vec<u8> = Vec::new();
    let mut j: usize = a;
    while j < b
        invariant
            a <= j <= b <= v@.len(),
            out@ == v@.subrange(a as int, j as int),
        decreases b - j,
    {
        out.push(v[j]);
        proof {
            assert(out@ =~= v@.subrange(a as int, j as int + 1));
        }
        j = j + 1;
    }
    proof {
        assert(out@ =~= v@.subrange(a as int, b as int));
    }
    out
}

/// `v` with ASCII whitespace removed from its end.
pub fn trim_end_bytes(v: &Vec<u8>) -> (r: Vec<u8>)
    ensures
        r@ == trim_end_spec(v@),
{
    let b = scan_spaces_rev(v, 0);
    proof {
        lemma_trim_end_is_take(v@, b as int);
    }
    let mut out: Vec<u8> = Vec::new();
    let mut j: usize = 0;
    while j < b
        invariant
            0 <= j <= b <= v@.len(),
            out@ == v@.take(j as int),
        decreases b - j,
    {
        out.push(v[j]);
        proof {
            assert(out@ =~= v@.take(j as int + 1));
        }
        j = j + 1;
    }
    out
}

/// The bytes of `v` before position `to`.
pub fn prefix_bytes(v: &Vec<u8>, to: usize) -> (r: Vec<u8>)
    requires
        to <= v@.len(),
    ensures
        r@ == v@.take(to as int),
{
    let mut out: Vec<u8> = Vec::new();
    let mut j: usize = 0;
    while j < to
        invariant
            0 <= j <= to <= v@.len(),
            out@ == v@.take(j as int),
        decreases to - j,
    {
        out.push(v[j]);
        proof {
            assert(out@ =~= v@.take(j as int + 1));
        }
        j = j + 1;
    }
    out
}

/// The bytes of `v` from position `from` on.
pub fn suffix_bytes(v: &Vec<u8>, from: usize) -> (r: Vec<u8>)
    requires
        from <= v@.len(),
    ensures
        r@ == v@.skip(from as int),
{
    let mut out: Vec<u8> = Vec::new();
    let mut j: usize = from;
    while j < v.len()
        invariant
            from <= j <= v@.len(),
            out@ == v@.subrange(from as int, j as int),
        decreases v@.len() - j,
    {
        out.push(v[j]);
        proof {
            assert(out@ =~= v@.subrange(from as int, j as int + 1));
        }
        j = j + 1;
    }
    proof {
        assert(out@ =~= v@.skip(from as int));
    }
    out
}

/// A copy of the given bytes.
pub fn copy_bytes(v: &Vec<u8>) -> (r: Vec<u8>)
    ensures
        r@ == v@,
{
    let mut out: Vec<u8> = Vec::new();
    push_bytes(&mut out, v);
    proof {
        assert(out@ =~= v@);
    }
    out
}

/// Whether two byte vectors hold the same bytes.
pub fn eq_bytes(x: &Vec<u8>, y: &Vec<u8>) -> (r: bool)
    ensures
        r == (x@ == y@),
{
    if x.len() != y.len() {
        return false;
    }
    let mut i: usize = 0;
    while i < x.len()
        invariant
            0 <= i <= x@.len(),
            x@.len() == y@.len(),
            forall|k: int| 0 <= k < i ==> x@[k] == y@[k],
        decreases x@.len() - i,
    {
        if x[i] != y[i] {
            return false;
        }
        i = i + 1;
    }
    proof {
        assert(x@ =~= y@);
    }
    true
}

/// Appends all bytes of `s` to `out`.
pub fn push_bytes(out: &mut Vec<u8>, s: &Vec<u8>)
    ensures
        final(out)@ == old(out)@ + s@,
{
    let mut i: usize = 0;
    while i < s.len()
        invariant
            0 <= i <= s@.len(),
            out@ == old(out)@ + s@.take(i as int),
        decreases s@.len() - i,
    {
        out.push(s[i]);
        proof {
            assert(old(out)@ + s@.take(i as int + 1) =~= (old(out)@ + s@.take(i as int)).push(
                s@[i as int]));
        }
        i = i + 1;
    }
    proof {
        assert(s@.take(s@.len() as int) =~= s@);
    }
}

} // verus!
