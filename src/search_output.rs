//! Reading the hit table of a profile search: the block of lines after the
//! `E-value` header, up to the first blank line. A line with at least nine
//! whitespace-separated fields is a hit, unless one of those nine fields
//! holds `--`; its score is field 2 and its sequence name field 9.
use vstd::prelude::*;

verus! {

/// ASCII whitespace: tab, line feed, vertical tab, form feed, carriage
/// return, space.
pub open spec fn is_space(b: u8) -> bool {
    b == 9 || b == 10 || b == 11 || b == 12 || b == 13 || b == 32
}

/// The lines of `s`, split at each line feed; the last one may be empty.
pub open spec fn lines_of(s: Seq<u8>) -> Seq<Seq<u8>>
    decreases s.len(),
{
    if s.len() == 0 {
        seq![seq![]]
    } else {
        let ls = lines_of(s.drop_last());
        if s.last() == 10 {
            ls.push(seq![])
        } else {
            ls.update(ls.len() - 1, ls.last().push(s.last()))
        }
    }
}

/// The whitespace-separated fields of a line.
pub open spec fn tokens(l: Seq<u8>) -> Seq<Seq<u8>>
    decreases l.len(),
{
    if l.len() == 0 {
        seq![]
    } else {
        let t = tokens(l.drop_last());
        let b = l.last();
        if is_space(b) {
            t
        } else if l.len() >= 2 && !is_space(l[l.len() - 2]) {
            t.update(t.len() - 1, t.last().push(b))
        } else {
            t.push(seq![b])
        }
    }
}

/// The line opens the table: its first field starts with `E-value`.
pub open spec fn opens_table(t: Seq<Seq<u8>>) -> bool {
    t.len() > 0 && t[0].len() >= 7 && t[0].take(7) == seq![69u8, 45, 118, 97, 108, 117, 101]
}

/// A field holds `--`.
pub open spec fn has_double_dash(f: Seq<u8>) -> bool {
    exists|i: int| 0 <= i < f.len() - 1 && #[trigger] f[i] == 45 && f[i + 1] == 45
}

/// The fields make a hit: nine or more, none of the first nine with `--`.
pub open spec fn is_hit(t: Seq<Seq<u8>>) -> bool {
    t.len() >= 9 && forall|i: int| 0 <= i < 9 ==> !has_double_dash(#[trigger] t[i])
}

/// The hits of the lines from `i` on, as `(name, score)` fields; `reading`
/// tells whether the table has been opened.
pub open spec fn scan_lines(ls: Seq<Seq<u8>>, i: int, reading: bool) -> Seq<(Seq<u8>, Seq<u8>)>
    decreases ls.len() - i,
{
    if i >= ls.len() || i < 0 {
        seq![]
    } else {
        let t = tokens(ls[i]);
        if !reading {
            scan_lines(ls, i + 1, opens_table(t))
        } else if t.len() == 0 {
            seq![]
        } else if is_hit(t) {
            seq![(t[8], t[1])] + scan_lines(ls, i + 1, true)
        } else {
            scan_lines(ls, i + 1, true)
        }
    }
}

/// The hits of a search output, as `(name, score)` fields, in order.
pub open spec fn search_hits(out: Seq<u8>) -> Seq<(Seq<u8>, Seq<u8>)> {
    scan_lines(lines_of(out), 0, false)
}

/// The byte strings of a list, as sequences.
pub open spec fn byte_rows(v: Vec<Vec<u8>>) -> Seq<Seq<u8>> {
    v@.map_values(|r: Vec<u8>| r@)
}

fn is_space_byte(b: u8) -> (r: bool)
    ensures
        r == is_space(b),
{
    b == 9 || b == 10 || b == 11 || b == 12 || b == 13 || b == 32
}

fn split_lines(s: &Vec<u8>) -> (r: Vec<Vec<u8>>)
    ensures
        byte_rows(r) == lines_of(s@),
{
    let mut lines: Vec<Vec<u8>> = Vec::new();
    let mut cur: Vec<u8> = Vec::new();
    let mut i: usize = 0;
    while i < s.len()
        invariant
            i <= s.len(),
            byte_rows(lines).push(cur@) == lines_of(s@.take(i as int)),
        decreases s.len() - i,
    {
        let b = s[i];
        let ghost before = byte_rows(lines).push(cur@);
        assert(s@.take(i + 1).drop_last() =~= s@.take(i as int));
        if b == 10 {
            lines.push(cur);
            cur = Vec::new();
            assert(byte_rows(lines).push(cur@) =~= before.push(seq![]));
        } else {
            cur.push(b);
            assert(byte_rows(lines).push(cur@) =~= before.update(
                before.len() - 1,
                before.last().push(b),
            ));
        }
        i += 1;
    }
    assert(s@.take(i as int) =~= s@);
    lines.push(cur);
    lines
}

fn split_tokens(l: &Vec<u8>) -> (r: Vec<Vec<u8>>)
    ensures
        byte_rows(r) == tokens(l@),
{
    let mut toks: Vec<Vec<u8>> = Vec::new();
    let mut prev_space = true;
    let mut i: usize = 0;
    while i < l.len()
        invariant
            i <= l.len(),
            byte_rows(toks) == tokens(l@.take(i as int)),
            prev_space == (i == 0 || is_space(l[i - 1])),
            !prev_space ==> toks.len() > 0,
        decreases l.len() - i,
    {
        let b = l[i];
        let ghost before = byte_rows(toks);
        let ghost pre = l@.take(i + 1);
        assert(pre.drop_last() =~= l@.take(i as int));
        assert(pre.last() == b);
        if is_space_byte(b) {
            prev_space = true;
        } else if !prev_space {
            assert(pre[pre.len() - 2] == l[i - 1]);
            let mut last = toks.pop().unwrap();
            last.push(b);
            toks.push(last);
            assert(byte_rows(toks) =~= before.update(before.len() - 1, before.last().push(b)));
        } else {
            let mut t: Vec<u8> = Vec::new();
            t.push(b);
            toks.push(t);
            assert(byte_rows(toks) =~= before.push(seq![b]));
            prev_space = false;
        }
        i += 1;
    }
    assert(l@.take(i as int) =~= l@);
    toks
}

fn opens_table_exec(t: &Vec<Vec<u8>>) -> (r: bool)
    ensures
        r == opens_table(byte_rows(*t)),
{
    if t.len() == 0 {
        return false;
    }
    let f = &t[0];
    assert(f@ == byte_rows(*t)[0]);
    if f.len() < 7 {
        return false;
    }
    let r = f[0] == 69 && f[1] == 45 && f[2] == 118 && f[3] == 97 && f[4] == 108 && f[5] == 117
        && f[6] == 101;
    assert(r == (f@.take(7) =~= seq![69u8, 45, 118, 97, 108, 117, 101]));
    r
}

fn has_double_dash_exec(f: &Vec<u8>) -> (r: bool)
    ensures
        r == has_double_dash(f@),
{
    if f.len() < 2 {
        return false;
    }
    let mut i: usize = 0;
    while i < f.len() - 1
        invariant
            f.len() >= 2,
            forall|j: int| 0 <= j < i && j < f.len() - 1 ==> !(#[trigger] f[j] == 45 && f[j + 1] == 45),
        decreases f.len() - i,
    {
        if f[i] == 45 && f[i + 1] == 45 {
            return true;
        }
        i += 1;
    }
    false
}

fn is_hit_exec(t: &Vec<Vec<u8>>) -> (r: bool)
    ensures
        r == is_hit(byte_rows(*t)),
{
    if t.len() < 9 {
        return false;
    }
    let mut i: usize = 0;
    while i < 9
        invariant
            i <= 9 <= t.len(),
            forall|j: int| 0 <= j < i ==> !has_double_dash(#[trigger] byte_rows(*t)[j]),
        decreases 9 - i,
    {
        assert(t[i as int]@ == byte_rows(*t)[i as int]);
        if has_double_dash_exec(&t[i]) {
            return false;
        }
        i += 1;
    }
    true
}

/// The `(name, score)` fields of each hit of a search output, in order.
pub fn hit_fields(out: &Vec<u8>) -> (r: Vec<(Vec<u8>, Vec<u8>)>)
    ensures
        r@.map_values(|p: (Vec<u8>, Vec<u8>)| (p.0@, p.1@)) == search_hits(out@),
{
    let lines = split_lines(out);
    let ghost ls = byte_rows(lines);
    let mut res: Vec<(Vec<u8>, Vec<u8>)> = Vec::new();
    let mut reading = false;
    let mut i: usize = 0;
    while i < lines.len()
        invariant
            i <= lines.len(),
            ls == byte_rows(lines),
            ls == lines_of(out@),
            res@.map_values(|p: (Vec<u8>, Vec<u8>)| (p.0@, p.1@)) + scan_lines(ls, i as int, reading)
                == search_hits(out@),
        decreases lines.len() - i,
    {
        let ghost before = res@.map_values(|p: (Vec<u8>, Vec<u8>)| (p.0@, p.1@));
        let t = split_tokens(&lines[i]);
        assert(lines[i as int]@ == ls[i as int]);
        if !reading {
            reading = opens_table_exec(&t);
        } else if t.len() == 0 {
            assert(scan_lines(ls, i as int, reading) == Seq::<(Seq<u8>, Seq<u8>)>::empty());
            assert(before + Seq::<(Seq<u8>, Seq<u8>)>::empty() =~= before);
            return res;
        } else if is_hit_exec(&t) {
            let name = t[8].clone();
            let score = t[1].clone();
            assert(name@ == byte_rows(t)[8]);
            assert(score@ == byte_rows(t)[1]);
            res.push((name, score));
            assert(res@.map_values(|p: (Vec<u8>, Vec<u8>)| (p.0@, p.1@)) =~= before.push(
                (byte_rows(t)[8], byte_rows(t)[1]),
            ));
            assert(before + scan_lines(ls, i as int, true) =~= before.push(
                (byte_rows(t)[8], byte_rows(t)[1]),
            ) + scan_lines(ls, i + 1, true));
        }
        i += 1;
    }
    assert(scan_lines(ls, i as int, reading) == Seq::<(Seq<u8>, Seq<u8>)>::empty());
    assert(res@.map_values(|p: (Vec<u8>, Vec<u8>)| (p.0@, p.1@)) + Seq::<(Seq<u8>, Seq<u8>)>::empty()
        =~= res@.map_values(|p: (Vec<u8>, Vec<u8>)| (p.0@, p.1@)));
    res
}

} // verus!
