//! Byte-level utilities shared by the header engine: ASCII case folding,
//! whitespace trimming, and equality of byte sequences.

use vstd::prelude::*;

verus! {

/// ASCII horizontal tab.
pub const HTAB: u8 = 9;

/// ASCII space.
pub const SP: u8 = 32;

/// ASCII double quote, `"`.
pub const DQUOTE: u8 = 34;

/// ASCII comma.
pub const COMMA: u8 = 44;

/// ASCII semicolon.
pub const SEMI: u8 = 59;

/// ASCII uppercase `A`.
pub const UPPER_A: u8 = 65;

/// ASCII uppercase `Z`.
pub const UPPER_Z: u8 = 90;

/// ASCII backslash.
pub const BACKSLASH: u8 = 92;

/// ASCII lowercase of one byte; bytes outside `A..=Z` are unchanged.
pub open spec fn lower_byte(b: u8) -> u8 {
    if UPPER_A <= b && b <= UPPER_Z {
        (b + 32) as u8
    } else {
        b
    }
}

/// Case-folded (ASCII-lowercase) form of a byte sequence: the canonical
/// form of a header name.
pub open spec fn fold_name(s: Seq<u8>) -> Seq<u8> {
    s.map_values(|b: u8| lower_byte(b))
}

/// Case folding is idempotent.
pub proof fn lemma_fold_name_idempotent(s: Seq<u8>)
    ensures
        fold_name(fold_name(s)) == fold_name(s),
{
    assert(fold_name(fold_name(s)) =~= fold_name(s));
}

/// Computes the case-folded form of a byte string.
pub fn lower_bytes(s: &[u8]) -> (r: Vec<u8>)
    ensures
        r@ == fold_name(s@),
{
    let mut out: Vec<u8> = Vec::new();
    let mut i: usize = 0;
    while i < s.len()
        invariant
            i <= s@.len(),
            out@ == fold_name(s@.take(i as int)),
        decreases s@.len() - i,
    {
        let b = s[i];
        let lb = if UPPER_A <= b && b <= UPPER_Z {
            b + 32
        } else {
            b
        };
        out.push(lb);
        i += 1;
        proof {
            assert(s@.take(i as int) =~= s@.take(i - 1).push(s@[i - 1]));
            assert(fold_name(s@.take(i as int)) =~= fold_name(s@.take(i - 1)).push(
                lower_byte(s@[i - 1]),
            ));
        }
    }
    proof {
        assert(s@.take(s@.len() as int) =~= s@);
    }
    out
}

/// Copies a byte slice into an owned vector.
pub fn copy_bytes(s: &[u8]) -> (r: Vec<u8>)
    ensures
        r@ == s@,
{
    vstd::slice::slice_to_vec(s)
}

/// Whether `b` is optional whitespace (space or horizontal tab).
pub open spec fn is_ows(b: u8) -> bool {
    b == SP || b == HTAB
}

/// The split of `s` on top-level commas, scanning from position `i` with
/// the piece built so far and the quoted-string state: `inq` inside a
/// quoted string, `esc` directly after a backslash there. Commas inside
/// quoted strings do not split; a backslash escapes the next byte inside a
/// quoted string.
pub open spec fn split_scan(s: Seq<u8>, i: int, cur: Seq<u8>, inq: bool, esc: bool) -> Seq<
    Seq<u8>,
>
    decreases s.len() - i,
{
    if i < 0 || i >= s.len() {
        seq![cur]
    } else {
        let b = s[i];
        if inq {
            if esc {
                split_scan(s, i + 1, cur.push(b), true, false)
            } else if b == BACKSLASH {
                split_scan(s, i + 1, cur.push(b), true, true)
            } else if b == DQUOTE {
                split_scan(s, i + 1, cur.push(b), false, false)
            } else {
                split_scan(s, i + 1, cur.push(b), true, false)
            }
        } else {
            if b == COMMA {
                seq![cur] + split_scan(s, i + 1, Seq::empty(), false, false)
            } else if b == DQUOTE {
                split_scan(s, i + 1, cur.push(b), true, false)
            } else {
                split_scan(s, i + 1, cur.push(b), false, false)
            }
        }
    }
}

/// The pieces of `s` between top-level commas, in order, untrimmed.
pub open spec fn split_commas(s: Seq<u8>) -> Seq<Seq<u8>> {
    split_scan(s, 0, Seq::empty(), false, false)
}

/// `s` without its leading optional whitespace.
pub open spec fn trim_front(s: Seq<u8>) -> Seq<u8>
    decreases s.len(),
{
    if s.len() > 0 && is_ows(s[0]) {
        trim_front(s.subrange(1, s.len() as int))
    } else {
        s
    }
}

/// `s` without its trailing optional whitespace.
pub open spec fn trim_back(s: Seq<u8>) -> Seq<u8>
    decreases s.len(),
{
    if s.len() > 0 && is_ows(s[s.len() - 1]) {
        trim_back(s.subrange(0, s.len() - 1))
    } else {
        s
    }
}

/// `s` without leading and trailing optional whitespace.
pub open spec fn trim_ows(s: Seq<u8>) -> Seq<u8> {
    trim_back(trim_front(s))
}

/// The list elements of one raw line: the pieces between top-level commas,
/// each trimmed of surrounding whitespace, with empty elements dropped.
pub open spec fn list_elems(line: Seq<u8>) -> Seq<Seq<u8>> {
    split_commas(line).map_values(|p: Seq<u8>| trim_ows(p)).filter(|p: Seq<u8>| p.len() > 0)
}

/// The list elements of a sequence of raw lines, line by line, in order.
pub open spec fn lines_elems(lines: Seq<Seq<u8>>) -> Seq<Seq<u8>>
    decreases lines.len(),
{
    if lines.len() == 0 {
        Seq::empty()
    } else {
        list_elems(lines[0]) + lines_elems(lines.subrange(1, lines.len() as int))
    }
}

/// Reading one more line appends that line's elements.
pub proof fn lemma_lines_elems_push(lines: Seq<Seq<u8>>, l: Seq<u8>)
    ensures
        lines_elems(lines.push(l)) == lines_elems(lines) + list_elems(l),
    decreases lines.len(),
{
    let p = lines.push(l);
    if lines.len() == 0 {
        assert(p[0] == l);
        assert(p.subrange(1, p.len() as int) =~= Seq::<Seq<u8>>::empty());
        assert(lines_elems(p.subrange(1, p.len() as int)) == Seq::<Seq<u8>>::empty());
        assert(lines_elems(p) == list_elems(l) + Seq::<Seq<u8>>::empty());
        assert(lines_elems(lines) == Seq::<Seq<u8>>::empty());
        assert(lines_elems(p) =~~= lines_elems(lines) + list_elems(l));
    } else {
        let t = lines.subrange(1, lines.len() as int);
        assert(p[0] == lines[0]);
        assert(p.subrange(1, p.len() as int) =~= t.push(l));
        lemma_lines_elems_push(t, l);
        assert(lines_elems(p) == list_elems(p[0]) + lines_elems(p.subrange(1, p.len() as int)));
        assert(lines_elems(p.subrange(1, p.len() as int)) == lines_elems(t) + list_elems(l));
        assert(lines_elems(lines) == list_elems(lines[0]) + lines_elems(t));
        assert(lines_elems(p) =~~= lines_elems(lines) + list_elems(l));
    }
}

/// The comma-join of list elements: elements in order, separated by a
/// comma and one space.
pub open spec fn join_elems(elems: Seq<Seq<u8>>) -> Seq<u8>
    decreases elems.len(),
{
    if elems.len() == 0 {
        Seq::empty()
    } else if elems.len() == 1 {
        elems[0]
    } else {
        elems[0] + seq![COMMA, SP] + join_elems(elems.subrange(1, elems.len() as int))
    }
}

/// Splits one raw line on top-level commas, trims each piece, and drops
/// empty pieces.
pub fn split_list_line(line: &[u8]) -> (r: Vec<Vec<u8>>)
    ensures
        r.deep_view() == list_elems(line@),
{
    let mut pieces: Vec<Vec<u8>> = Vec::new();
    let mut cur: Vec<u8> = Vec::new();
    let mut inq: bool = false;
    let mut esc: bool = false;
    let n = line.len();
    let mut i: usize = 0;
    proof {
        assert(line@.take(0) =~= Seq::<u8>::empty());
    }
    while i < n
        invariant
            i <= n,
            n == line@.len(),
            split_commas(line@) == pieces.deep_view() + split_scan(line@, i as int, cur@, inq, esc),
            !inq ==> !esc,
        decreases n - i,
    {
        let b = line[i];
        if inq {
            if esc {
                cur.push(b);
                esc = false;
            } else if b == BACKSLASH {
                cur.push(b);
                esc = true;
            } else if b == DQUOTE {
                cur.push(b);
                inq = false;
            } else {
                cur.push(b);
            }
        } else {
            if b == COMMA {
                let ghost prior = pieces.deep_view();
                let ghost curv = cur@;
                pieces.push(cur);
                cur = Vec::new();
                proof {
                    assert(pieces.deep_view() =~~= prior.push(curv));
                    assert(prior + (seq![curv] + split_scan(
                        line@,
                        i + 1,
                        Seq::empty(),
                        false,
                        false,
                    )) =~= prior.push(curv) + split_scan(line@, i + 1, Seq::empty(), false, false));
                }
            } else if b == DQUOTE {
                cur.push(b);
                inq = true;
            } else {
                cur.push(b);
            }
        }
        i += 1;
    }
    pieces.push(cur);
    let mut out: Vec<Vec<u8>> = Vec::new();
    let ghost all = pieces.deep_view();
    let m = pieces.len();
    let mut j: usize = 0;
    proof {
        assert(split_scan(line@, n as int, all[all.len() - 1], inq, esc) == seq![
            all[all.len() - 1],
        ]);
        assert(split_commas(line@) =~~= all);
        assert(all.take(0) =~= Seq::<Seq<u8>>::empty());
    }
    while j < m
        invariant
            j <= m,
            m == all.len(),
            pieces.deep_view() == all,
            out.deep_view() == all.take(j as int).map_values(|p: Seq<u8>| trim_ows(p)).filter(
                |p: Seq<u8>| p.len() > 0,
            ),
        decreases m - j,
    {
        proof {
            assert(pieces@[j as int]@ == all[j as int]);
        }
        let t = trim_bytes(pieces[j].as_slice());
        proof {
            assert(all.take(j + 1) =~= all.take(j as int).push(all[j as int]));
            lemma_trim_filter_push(all.take(j as int), all[j as int]);
        }
        let ghost out_prior = out.deep_view();
        let ghost tv = t@;
        if t.len() > 0 {
            out.push(t);
            proof {
                assert(out.deep_view() =~~= out_prior.push(tv));
            }
        }
        j += 1;
    }
    proof {
        assert(all.take(m as int) =~= all);
        assert(out.deep_view() =~~= list_elems(line@));
    }
    out
}

/// Trimming then filtering a sequence extended by one piece keeps the
/// result for the prefix and appends the trimmed piece exactly when it is
/// nonempty.
proof fn lemma_trim_filter_push(s: Seq<Seq<u8>>, x: Seq<u8>)
    ensures
        s.push(x).map_values(|p: Seq<u8>| trim_ows(p)).filter(|p: Seq<u8>| p.len() > 0) == if
            trim_ows(x).len() > 0 {
            s.map_values(|p: Seq<u8>| trim_ows(p)).filter(|p: Seq<u8>| p.len() > 0).push(
                trim_ows(x),
            )
        } else {
            s.map_values(|p: Seq<u8>| trim_ows(p)).filter(|p: Seq<u8>| p.len() > 0)
        },
{
    let m = s.map_values(|p: Seq<u8>| trim_ows(p));
    let mp = s.push(x).map_values(|p: Seq<u8>| trim_ows(p));
    assert(mp =~= m.push(trim_ows(x)));
    assert(mp.drop_last() =~= m);
    reveal(Seq::filter);
}

/// Trims leading and trailing optional whitespace from a byte string.
pub fn trim_bytes(s: &[u8]) -> (r: Vec<u8>)
    ensures
        r@ == trim_ows(s@),
{
    let n = s.len();
    let mut start: usize = 0;
    proof {
        assert(s@.subrange(0, n as int) =~= s@);
    }
    while start < n && (s[start] == SP || s[start] == HTAB)
        invariant
            start <= n,
            n == s@.len(),
            trim_front(s@) == trim_front(s@.subrange(start as int, n as int)),
        decreases n - start,
    {
        proof {
            let sub = s@.subrange(start as int, n as int);
            assert(sub[0] == s@[start as int]);
            assert(sub.subrange(1, sub.len() as int) =~= s@.subrange(start + 1, n as int));
        }
        start += 1;
    }
    let mut end: usize = n;
    proof {
        let sub = s@.subrange(start as int, n as int);
        if start < n {
            assert(!is_ows(sub[0]));
        }
        assert(trim_front(s@) == sub);
    }
    while end > start && (s[end - 1] == SP || s[end - 1] == HTAB)
        invariant
            start <= end <= n,
            n == s@.len(),
            trim_front(s@) == s@.subrange(start as int, n as int),
            trim_back(s@.subrange(start as int, n as int)) == trim_back(
                s@.subrange(start as int, end as int),
            ),
        decreases end,
    {
        proof {
            let sub = s@.subrange(start as int, end as int);
            assert(sub[sub.len() - 1] == s@[end - 1]);
            assert(sub.subrange(0, sub.len() - 1) =~= s@.subrange(start as int, end - 1));
        }
        end -= 1;
    }
    proof {
        let sub = s@.subrange(start as int, end as int);
        if end > start {
            assert(!is_ows(sub[sub.len() - 1]));
        }
        assert(trim_ows(s@) == sub);
    }
    let mut r: Vec<u8> = Vec::new();
    let mut i: usize = start;
    while i < end
        invariant
            start <= i <= end <= n,
            n == s@.len(),
            r@ == s@.subrange(start as int, i as int),
        decreases end - i,
    {
        r.push(s[i]);
        proof {
            assert(s@.subrange(start as int, i + 1) =~= s@.subrange(start as int, i as int).push(
                s@[i as int],
            ));
        }
        i += 1;
    }
    r
}

/// Joins list elements with a comma and one space.
pub fn join_list(elems: &Vec<Vec<u8>>) -> (r: Vec<u8>)
    ensures
        r@ == join_elems(elems.deep_view()),
{
    let ghost all = elems.deep_view();
    let mut out: Vec<u8> = Vec::new();
    let n = elems.len();
    let mut i: usize = 0;
    proof {
        assert(all.take(0) =~= Seq::<Seq<u8>>::empty());
    }
    while i < n
        invariant
            i <= n,
            n == all.len(),
            elems.deep_view() == all,
            out@ == join_elems(all.take(i as int)),
        decreases n - i,
    {
        if i > 0 {
            out.push(COMMA);
            out.push(SP);
        }
        let mut k: usize = 0;
        let ghost mid = out@;
        let piece = &elems[i];
        while k < piece.len()
            invariant
                k <= piece@.len(),
                piece@ == all[i as int],
                out@ == mid + piece@.take(k as int),
            decreases piece@.len() - k,
        {
            out.push(piece[k]);
            proof {
                assert(piece@.take(k + 1) =~= piece@.take(k as int).push(piece@[k as int]));
                assert(mid + piece@.take(k + 1) =~= (mid + piece@.take(k as int)).push(
                    piece@[k as int],
                ));
            }
            k += 1;
        }
        proof {
            assert(piece@.take(piece@.len() as int) =~= piece@);
            assert(all.take(i + 1) =~= all.take(i as int).push(all[i as int]));
            lemma_join_snoc(all.take(i as int), all[i as int]);
            if i == 0 {
                assert(out@ =~= join_elems(all.take(1)));
            } else {
                assert(out@ =~= join_elems(all.take(i as int)) + seq![COMMA, SP] + all[i as int]);
            }
        }
        i += 1;
    }
    proof {
        assert(all.take(n as int) =~= all);
    }
    out
}

/// Joining one more element appends a separator (when the list was
/// nonempty) and the element.
pub proof fn lemma_join_snoc(elems: Seq<Seq<u8>>, x: Seq<u8>)
    ensures
        join_elems(elems.push(x)) == if elems.len() == 0 {
            x
        } else {
            join_elems(elems) + seq![COMMA, SP] + x
        },
    decreases elems.len(),
{
    let p = elems.push(x);
    if elems.len() == 0 {
        assert(p.len() == 1);
        assert(p[0] == x);
    } else if elems.len() == 1 {
        assert(p.len() == 2);
        assert(p[0] == elems[0]);
        assert(p.subrange(1, 2) =~= seq![x]);
        assert(join_elems(seq![x]) == x);
    } else {
        assert(p[0] == elems[0]);
        assert(p.subrange(1, p.len() as int) =~= elems.subrange(1, elems.len() as int).push(x));
        lemma_join_snoc(elems.subrange(1, elems.len() as int), x);
        assert(join_elems(p) =~= join_elems(elems) + seq![COMMA, SP] + x);
    }
}

/// Decides equality of two byte strings.
pub fn bytes_eq(a: &[u8], b: &[u8]) -> (r: bool)
    ensures
        r == (a@ == b@),
{
    if a.len() != b.len() {
        proof {
            assert(a@.len() != b@.len());
        }
        return false;
    }
    let mut i: usize = 0;
    while i < a.len()
        invariant
            i <= a@.len(),
            a@.len() == b@.len(),
            forall|j: int| 0 <= j < i ==> a@[j] == b@[j],
        decreases a@.len() - i,
    {
        if a[i] != b[i] {
            return false;
        }
        i += 1;
    }
    proof {
        assert(a@ =~= b@);
    }
    true
}

/// A list element that survives the comma-join / comma-split round trip
/// unchanged: nonempty, no surrounding whitespace, and no byte that the
/// splitter treats specially (a comma or a double quote).
pub open spec fn plain_elem(e: Seq<u8>) -> bool {
    e.len() > 0 && !is_ows(e[0]) && !is_ows(e[e.len() - 1]) && forall|i: int|
        0 <= i < e.len() ==> e[i] != COMMA && e[i] != DQUOTE
}

/// Scanning over bytes with no comma and no quote only accumulates them
/// into the current piece.
proof fn lemma_scan_plain(s: Seq<u8>, i: int, j: int, cur: Seq<u8>)
    requires
        0 <= i <= j <= s.len(),
        forall|m: int| i <= m < j ==> s[m] != COMMA && s[m] != DQUOTE,
    ensures
        split_scan(s, i, cur, false, false) == split_scan(s, j, cur + s.subrange(i, j), false, false),
    decreases j - i,
{
    if i == j {
        assert(cur + s.subrange(i, j) =~= cur);
    } else {
        lemma_scan_plain(s, i + 1, j, cur.push(s[i]));
        assert(cur.push(s[i]) + s.subrange(i + 1, j) =~= cur + s.subrange(i, j));
    }
}

/// Scanning from position `k` sees only the suffix of the line.
proof fn lemma_scan_shift(s: Seq<u8>, k: int, cur: Seq<u8>, inq: bool, esc: bool)
    requires
        0 <= k <= s.len(),
    ensures
        split_scan(s, k, cur, inq, esc) == split_scan(
            s.subrange(k, s.len() as int),
            0,
            cur,
            inq,
            esc,
        ),
    decreases s.len() - k,
{
    let sub = s.subrange(k, s.len() as int);
    if k == s.len() {
        assert(sub.len() == 0);
    } else {
        assert(sub[0] == s[k]);
        let b = s[k];
        lemma_scan_shift(s, k + 1, cur.push(b), inq, !esc && b == BACKSLASH && inq);
        assert(sub.subrange(1, sub.len() as int) =~= s.subrange(k + 1, s.len() as int));
        if inq {
            if esc {
                lemma_scan_shift(s, k + 1, cur.push(b), true, false);
                lemma_scan_shift(sub, 1, cur.push(b), true, false);
            } else if b == BACKSLASH {
                lemma_scan_shift(s, k + 1, cur.push(b), true, true);
                lemma_scan_shift(sub, 1, cur.push(b), true, true);
            } else if b == DQUOTE {
                lemma_scan_shift(s, k + 1, cur.push(b), false, false);
                lemma_scan_shift(sub, 1, cur.push(b), false, false);
            } else {
                lemma_scan_shift(s, k + 1, cur.push(b), true, false);
                lemma_scan_shift(sub, 1, cur.push(b), true, false);
            }
        } else {
            if b == COMMA {
                lemma_scan_shift(s, k + 1, Seq::empty(), false, false);
                lemma_scan_shift(sub, 1, Seq::empty(), false, false);
            } else if b == DQUOTE {
                lemma_scan_shift(s, k + 1, cur.push(b), true, false);
                lemma_scan_shift(sub, 1, cur.push(b), true, false);
            } else {
                lemma_scan_shift(s, k + 1, cur.push(b), false, false);
                lemma_scan_shift(sub, 1, cur.push(b), false, false);
            }
        }
    }
}

/// Trimming drops an all-whitespace prefix.
proof fn lemma_trim_front_ows(pre: Seq<u8>, rest: Seq<u8>)
    requires
        forall|i: int| 0 <= i < pre.len() ==> is_ows(pre[i]),
    ensures
        trim_front(pre + rest) == trim_front(rest),
    decreases pre.len(),
{
    let w = pre + rest;
    if pre.len() == 0 {
        assert(w =~= rest);
    } else {
        assert(w[0] == pre[0]);
        if w.len() > 0 && is_ows(w[0]) {
            assert(w.subrange(1, w.len() as int) =~= pre.subrange(1, pre.len() as int) + rest);
            lemma_trim_front_ows(pre.subrange(1, pre.len() as int), rest);
        }
    }
}

/// A plain element trims to itself.
proof fn lemma_trim_plain(e: Seq<u8>)
    requires
        e.len() > 0,
        !is_ows(e[0]),
        !is_ows(e[e.len() - 1]),
    ensures
        trim_ows(e) == e,
{
    assert(trim_front(e) == e);
    assert(trim_back(e) == e);
}

/// Splitting the comma-join of plain elements, behind any all-whitespace
/// prefix, recovers exactly those elements.
proof fn lemma_split_of_joined(elems: Seq<Seq<u8>>, pre: Seq<u8>)
    requires
        elems.len() >= 1,
        forall|k: int| 0 <= k < elems.len() ==> plain_elem(#[trigger] elems[k]),
        forall|i: int| 0 <= i < pre.len() ==> is_ows(pre[i]),
    ensures
        list_elems(pre + join_elems(elems)) == elems,
    decreases elems.len(),
{
    let e0 = elems[0];
    assert(plain_elem(e0));
    if elems.len() == 1 {
        let line = pre + join_elems(elems);
        assert(join_elems(elems) == e0);
        assert(forall|m: int| 0 <= m < line.len() ==> line[m] != COMMA && line[m] != DQUOTE) by {
            assert(forall|m: int| 0 <= m < pre.len() ==> line[m] == pre[m]);
            assert(forall|m: int| pre.len() <= m < line.len() ==> line[m] == e0[m - pre.len()]);
        }
        lemma_scan_plain(line, 0, line.len() as int, Seq::empty());
        assert(Seq::empty() + line.subrange(0, line.len() as int) =~= line);
        assert(split_commas(line) == seq![line]);
        lemma_trim_front_ows(pre, e0);
        lemma_trim_plain(e0);
        assert(trim_ows(line) == e0) by {
            assert(trim_front(line) == trim_front(e0));
            assert(trim_front(e0) == e0);
            assert(trim_back(e0) == e0);
        }
        assert(seq![line].map_values(|p: Seq<u8>| trim_ows(p)) =~= seq![e0]);
        reveal_with_fuel(Seq::filter, 4);
        assert(seq![e0].drop_last() =~= Seq::<Seq<u8>>::empty());
        assert(seq![e0].filter(|p: Seq<u8>| p.len() > 0) =~= seq![e0]);
        assert(elems =~= seq![e0]);
        assert(list_elems(line) == elems);
    } else {
        let rest = elems.subrange(1, elems.len() as int);
        let line = pre + join_elems(elems);
        let p1 = pre + e0;
        let j0 = p1.len() as int;
        let tail = seq![SP] + join_elems(rest);
        assert(join_elems(elems) == e0 + seq![COMMA, SP] + join_elems(rest));
        assert(line =~= p1 + seq![COMMA] + tail);
        assert(forall|m: int| 0 <= m < j0 ==> line[m] != COMMA && line[m] != DQUOTE) by {
            assert(forall|m: int| 0 <= m < pre.len() ==> line[m] == pre[m]);
            assert(forall|m: int| pre.len() <= m < j0 ==> line[m] == e0[m - pre.len()]);
        }
        lemma_scan_plain(line, 0, j0, Seq::empty());
        assert(Seq::empty() + line.subrange(0, j0) =~= p1);
        assert(line[j0] == COMMA);
        assert(split_scan(line, j0, p1, false, false) == seq![p1] + split_scan(
            line,
            j0 + 1,
            Seq::empty(),
            false,
            false,
        ));
        lemma_scan_shift(line, j0 + 1, Seq::empty(), false, false);
        assert(line.subrange(j0 + 1, line.len() as int) =~= tail);
        assert(split_commas(line) == seq![p1] + split_commas(tail));
        assert(forall|k: int| 0 <= k < rest.len() ==> rest[k] == elems[k + 1]);
        assert(is_ows(SP));
        lemma_split_of_joined(rest, seq![SP]);
        assert(list_elems(tail) == rest);
        let tr = |p: Seq<u8>| trim_ows(p);
        let nonempty = |p: Seq<u8>| p.len() > 0;
        assert((seq![p1] + split_commas(tail)).map_values(tr) =~= seq![p1].map_values(tr)
            + split_commas(tail).map_values(tr));
        Seq::filter_distributes_over_add(
            seq![p1].map_values(tr),
            split_commas(tail).map_values(tr),
            nonempty,
        );
        lemma_trim_front_ows(pre, e0);
        lemma_trim_plain(e0);
        assert(trim_ows(p1) == e0) by {
            assert(trim_front(p1) == trim_front(e0));
            assert(trim_front(e0) == e0);
            assert(trim_back(e0) == e0);
        }
        assert(seq![p1].map_values(tr) =~= seq![e0]);
        reveal_with_fuel(Seq::filter, 4);
        assert(seq![e0].drop_last() =~= Seq::<Seq<u8>>::empty());
        assert(seq![e0].filter(nonempty) =~= seq![e0]);
        assert(list_elems(line) =~= seq![e0] + list_elems(tail));
        assert(elems =~= seq![e0] + rest);
        assert(seq![e0] + list_elems(tail) == seq![e0] + rest);
        assert(list_elems(line) == elems);
    }
}

/// Joining plain elements and splitting the joined line, as one raw line,
/// recovers exactly those elements; with no elements, the join is empty
/// and yields none.
pub proof fn lemma_list_round_trip(elems: Seq<Seq<u8>>)
    requires
        forall|k: int| 0 <= k < elems.len() ==> plain_elem(#[trigger] elems[k]),
    ensures
        list_elems(join_elems(elems)) == elems,
{
    if elems.len() == 0 {
        assert(join_elems(elems).len() == 0);
        let line = join_elems(elems);
        assert(split_commas(line) == seq![Seq::<u8>::empty()]);
        assert(trim_ows(Seq::<u8>::empty()) == Seq::<u8>::empty());
        let tr = |p: Seq<u8>| trim_ows(p);
        let nonempty = |p: Seq<u8>| p.len() > 0;
        assert(seq![Seq::<u8>::empty()].map_values(tr) =~= seq![Seq::<u8>::empty()]);
        reveal_with_fuel(Seq::filter, 4);
        assert(seq![Seq::<u8>::empty()].drop_last() =~= Seq::<Seq<u8>>::empty());
        assert(seq![Seq::<u8>::empty()].filter(nonempty) =~= Seq::<Seq<u8>>::empty());
        assert(elems =~= Seq::<Seq<u8>>::empty());
        assert(list_elems(line) == elems);
    } else {
        lemma_split_of_joined(elems, Seq::empty());
        assert(Seq::empty() + join_elems(elems) =~= join_elems(elems));
    }
}

/// Whether `b` is an ASCII decimal digit.
pub open spec fn is_digit(b: u8) -> bool {
    48 <= b && b <= 57
}

/// Whether `s` is one or more ASCII decimal digits.
pub open spec fn all_digits(s: Seq<u8>) -> bool {
    s.len() > 0 && forall|i: int| 0 <= i < s.len() ==> is_digit(s[i])
}

/// The numeric value of the digit string `s` (most significant first).
pub open spec fn dec_val(s: Seq<u8>) -> int
    decreases s.len(),
{
    if s.len() == 0 {
        0
    } else {
        dec_val(s.subrange(0, s.len() - 1)) * 10 + s[s.len() - 1] - 48
    }
}

/// The canonical decimal digits of `n`, without leading zeros.
pub open spec fn dec_repr(n: nat) -> Seq<u8>
    decreases n,
{
    if n < 10 {
        seq![(48 + n) as u8]
    } else {
        dec_repr(n / 10).push((48 + n % 10) as u8)
    }
}

/// The canonical digits of `n` are digits and read back as `n`.
pub proof fn lemma_dec_repr_val(n: nat)
    ensures
        all_digits(dec_repr(n)),
        dec_val(dec_repr(n)) == n,
    decreases n,
{
    if n < 10 {
        let s = dec_repr(n);
        assert(s.subrange(0, 0) =~= Seq::<u8>::empty());
        assert(s[0] == (48 + n) as u8);
        assert(s[0] == 48 + n);
        assert(dec_val(s) == dec_val(Seq::<u8>::empty()) * 10 + s[0] - 48);
        assert(dec_val(s) == n);
    } else {
        lemma_dec_repr_val(n / 10);
        let s = dec_repr(n);
        assert(s.subrange(0, s.len() - 1) =~= dec_repr(n / 10));
        assert(s[s.len() - 1] == 48 + n % 10);
        assert(all_digits(s)) by {
            assert(forall|i: int|
                0 <= i < s.len() - 1 ==> s[i] == dec_repr(n / 10)[i]);
        }
        assert(n / 10 * 10 + n % 10 == n) by (nonlinear_arith);
        assert(dec_val(s) == n);
    }
}

/// A digit string's value only grows as more digits are read.
proof fn lemma_dec_val_prefix(s: Seq<u8>, i: int)
    requires
        0 <= i <= s.len(),
        forall|j: int| 0 <= j < s.len() ==> is_digit(s[j]),
    ensures
        dec_val(s) >= dec_val(s.take(i)),
        dec_val(s.take(i)) >= 0,
    decreases s.len() - i,
{
    if i == s.len() {
        assert(s.take(i) =~= s);
        lemma_dec_val_nonneg(s);
    } else {
        lemma_dec_val_prefix(s, i + 1);
        assert(s.take(i + 1).subrange(0, i) =~= s.take(i));
        lemma_dec_val_nonneg(s.take(i));
    }
}

/// A digit string's value is never negative.
proof fn lemma_dec_val_nonneg(s: Seq<u8>)
    requires
        forall|j: int| 0 <= j < s.len() ==> is_digit(s[j]),
    ensures
        dec_val(s) >= 0,
    decreases s.len(),
{
    if s.len() > 0 {
        lemma_dec_val_nonneg(s.subrange(0, s.len() - 1));
    }
}

/// Parses a digit string as an unsigned 64-bit number. Absent when `s` is
/// empty, holds a byte that is not a digit, or denotes a value above
/// `u64::MAX`.
pub fn parse_dec_u64(s: &[u8]) -> (r: Option<u64>)
    ensures
        match r {
            Some(v) => all_digits(s@) && dec_val(s@) == v,
            None => !(all_digits(s@) && dec_val(s@) <= u64::MAX),
        },
{
    if s.len() == 0 {
        return None;
    }
    let n = s.len();
    let mut v: u64 = 0;
    let mut i: usize = 0;
    proof {
        assert(s@.take(0) =~= Seq::<u8>::empty());
    }
    while i < n
        invariant
            i <= n,
            n == s@.len(),
            forall|j: int| 0 <= j < i ==> is_digit(s@[j]),
            v == dec_val(s@.take(i as int)),
        decreases n - i,
    {
        let b = s[i];
        if b < 48 || b > 57 {
            return None;
        }
        let d = (b - 48) as u64;
        proof {
            assert(s@.take(i + 1).subrange(0, i as int) =~= s@.take(i as int));
            assert(dec_val(s@.take(i + 1)) == v * 10 + d);
        }
        if v > (u64::MAX - d) / 10 {
            proof {
                assert(v * 10 + d > u64::MAX) by {
                    assert(v >= (u64::MAX - d) / 10 + 1);
                    assert(((u64::MAX - d) / 10 + 1) * 10 >= u64::MAX - d + 1) by (nonlinear_arith);
                    assert(v * 10 >= ((u64::MAX - d) / 10 + 1) * 10) by (nonlinear_arith)
                        requires
                            v >= (u64::MAX - d) / 10 + 1,
                    ;
                }
                if all_digits(s@) {
                    lemma_dec_val_prefix(s@, i + 1);
                    assert(dec_val(s@) > u64::MAX);
                }
            }
            return None;
        }
        proof {
            assert(v * 10 + d <= u64::MAX) by {
                assert(v <= (u64::MAX - d) / 10);
                assert(((u64::MAX - d) / 10) * 10 <= u64::MAX - d) by (nonlinear_arith);
                assert(v * 10 <= ((u64::MAX - d) / 10) * 10) by (nonlinear_arith)
                    requires
                        v <= (u64::MAX - d) / 10,
                ;
            }
        }
        v = v * 10 + d;
        i += 1;
    }
    proof {
        assert(s@.take(n as int) =~= s@);
    }
    Some(v)
}

/// Formats `v` as its canonical decimal digits.
pub fn fmt_dec_u64(v: u64) -> (r: Vec<u8>)
    ensures
        r@ == dec_repr(v as nat),
{
    if v == 0 {
        let r: Vec<u8> = vec![48];
        proof {
            assert(r@ =~= dec_repr(0));
        }
        return r;
    }
    let mut out: Vec<u8> = Vec::new();
    let mut cur = v;
    while cur > 0
        invariant
            dec_repr(v as nat) == if cur > 0 {
                dec_repr(cur as nat) + out@
            } else {
                out@
            },
        decreases cur,
    {
        let d = (48 + (cur % 10) as u8) as u8;
        let ghost prior = out@;
        out.insert(0, d);
        proof {
            assert(out@ =~= seq![d] + prior);
            if cur >= 10 {
                assert(dec_repr(cur as nat) == dec_repr((cur as nat) / 10).push(d));
                assert(dec_repr((cur as nat) / 10) + (seq![d] + prior) =~= dec_repr(
                    (cur as nat) / 10,
                ).push(d) + prior);
                assert((cur / 10) as nat == (cur as nat) / 10);
            } else {
                assert(dec_repr(cur as nat) =~= seq![d]);
            }
        }
        cur = cur / 10;
    }
    out
}

} // verus!
