//! The textual form of the database: byte-level splitting on the field
//! delimiter and on line ends, and the decimal number codec.
//!
//! Everything works on bytes so that the stored format is pinned down
//! exactly; the records themselves carry their text as UTF-8 bytes.

use vstd::prelude::*;

verus! {

/// The delimiter between the fields of one stored line: `";; "`.
pub open spec fn delim() -> Seq<u8> {
    seq![59u8, 59u8, 32u8]
}

/// A line end, as stored: a single line-feed byte.
pub open spec fn nl() -> Seq<u8> {
    seq![10u8]
}

/// Whether an occurrence of `d` starts at position `i` of `s`.
pub open spec fn match_at(s: Seq<u8>, d: Seq<u8>, i: int) -> bool {
    0 <= i && i + d.len() <= s.len() && s.subrange(i, i + d.len() as int) == d
}

/// Whether `s` contains an occurrence of `d` anywhere.
pub open spec fn has_match(s: Seq<u8>, d: Seq<u8>) -> bool {
    exists|i: int| match_at(s, d, i)
}

/// Whether the byte `b` occurs in `s`.
pub open spec fn contains_byte(s: Seq<u8>, b: u8) -> bool {
    exists|i: int| 0 <= i < s.len() && s[i] == b
}

/// The fields of `s`, split on each leftmost occurrence of the delimiter
/// `d`. Splitting never fails: a string without the delimiter is one field,
/// and there is always at least one field.
pub open spec fn split_on(s: Seq<u8>, d: Seq<u8>) -> Seq<Seq<u8>>
    recommends
        d.len() >= 1,
    decreases s.len(),
{
    if d.len() == 0 || s.len() == 0 {
        seq![s]
    } else if s.len() >= d.len() && s.subrange(0, d.len() as int) == d {
        seq![Seq::<u8>::empty()] + split_on(s.subrange(d.len() as int, s.len() as int), d)
    } else {
        let rest = split_on(s.subrange(1, s.len() as int), d);
        seq![seq![s[0]] + rest[0]] + rest.subrange(1, rest.len() as int)
    }
}

/// Splitting yields at least one field.
pub proof fn lemma_split_on_len(s: Seq<u8>, d: Seq<u8>)
    ensures
        split_on(s, d).len() >= 1,
    decreases s.len(),
{
    if !(d.len() == 0 || s.len() == 0) {
        if s.len() >= d.len() && s.subrange(0, d.len() as int) == d {
            lemma_split_on_len(s.subrange(d.len() as int, s.len() as int), d);
        } else {
            lemma_split_on_len(s.subrange(1, s.len() as int), d);
        }
    }
}

/// The first field is a prefix of the split string.
pub proof fn lemma_split_on_prefix(s: Seq<u8>, d: Seq<u8>)
    requires
        d.len() >= 1,
    ensures
        split_on(s, d)[0].len() <= s.len(),
        split_on(s, d)[0] == s.subrange(0, split_on(s, d)[0].len() as int),
    decreases s.len(),
{
    lemma_split_on_len(s, d);
    if s.len() == 0 {
        assert(split_on(s, d)[0] =~= s.subrange(0, 0));
    } else if s.len() >= d.len() && s.subrange(0, d.len() as int) == d {
        assert(split_on(s, d)[0] =~= s.subrange(0, 0));
    } else {
        let t = s.subrange(1, s.len() as int);
        lemma_split_on_prefix(t, d);
        let r0 = split_on(t, d)[0];
        assert(split_on(s, d)[0] =~= s.subrange(0, r0.len() as int + 1));
    }
}

/// A string without the delimiter splits into itself alone.
pub proof fn lemma_split_on_whole(s: Seq<u8>, d: Seq<u8>)
    requires
        d.len() >= 1,
        !has_match(s, d),
    ensures
        split_on(s, d) == seq![s],
    decreases s.len(),
{
    if s.len() == 0 {
    } else if s.len() >= d.len() && s.subrange(0, d.len() as int) == d {
        assert(match_at(s, d, 0));
    } else {
        let t = s.subrange(1, s.len() as int);
        assert forall|i: int| !match_at(t, d, i) by {
            if match_at(t, d, i) {
                assert(s.subrange(i + 1, i + 1 + d.len() as int) =~= t.subrange(
                    i,
                    i + d.len() as int,
                ));
                assert(match_at(s, d, i + 1));
            }
        }
        lemma_split_on_whole(t, d);
        assert(split_on(s, d) =~~= seq![s]);
    }
}

/// No field of a split contains the delimiter.
pub proof fn lemma_split_on_no_match(s: Seq<u8>, d: Seq<u8>)
    requires
        d.len() >= 1,
    ensures
        forall|k: int|
            0 <= k < split_on(s, d).len() ==> !has_match(#[trigger] split_on(s, d)[k], d),
    decreases s.len(),
{
    let fs = split_on(s, d);
    lemma_split_on_len(s, d);
    if s.len() == 0 {
        assert(forall|i: int| !match_at(fs[0], d, i));
    } else if s.len() >= d.len() && s.subrange(0, d.len() as int) == d {
        let t = s.subrange(d.len() as int, s.len() as int);
        lemma_split_on_no_match(t, d);
        assert(forall|i: int| !match_at(fs[0], d, i));
        assert forall|k: int| 0 <= k < fs.len() implies !has_match(fs[k], d) by {
            if k >= 1 {
                assert(fs[k] == split_on(t, d)[k - 1]);
            }
        }
    } else {
        let t = s.subrange(1, s.len() as int);
        lemma_split_on_no_match(t, d);
        lemma_split_on_prefix(t, d);
        let rest = split_on(t, d);
        let f0 = seq![s[0]] + rest[0];
        assert forall|i: int| !match_at(f0, d, i) by {
            if match_at(f0, d, i) {
                if i == 0 {
                    // A match at the very front would mean the whole string
                    // starts with the delimiter, contradicting this branch.
                    assert(f0.subrange(0, d.len() as int) == d);
                    assert(rest[0] == t.subrange(0, rest[0].len() as int));
                    assert(s.subrange(0, d.len() as int) =~= f0.subrange(0, d.len() as int));
                } else {
                    assert(rest[0].subrange(i - 1, i - 1 + d.len() as int) =~= f0.subrange(
                        i,
                        i + d.len() as int,
                    ));
                    assert(match_at(rest[0], d, i - 1));
                }
            }
        }
        assert forall|k: int| 0 <= k < fs.len() implies !has_match(fs[k], d) by {
            if k == 0 {
                assert(fs[0] == f0);
            } else {
                assert(fs[k] == rest[k]);
            }
        }
    }
}

/// A byte absent from the whole string is absent from every field.
pub proof fn lemma_split_on_no_byte(s: Seq<u8>, d: Seq<u8>, b: u8)
    requires
        d.len() >= 1,
        !contains_byte(s, b),
    ensures
        forall|k: int|
            0 <= k < split_on(s, d).len() ==> !contains_byte(#[trigger] split_on(s, d)[k], b),
    decreases s.len(),
{
    let fs = split_on(s, d);
    lemma_split_on_len(s, d);
    if s.len() == 0 {
        assert(!contains_byte(fs[0], b));
    } else if s.len() >= d.len() && s.subrange(0, d.len() as int) == d {
        let t = s.subrange(d.len() as int, s.len() as int);
        assert(!contains_byte(t, b)) by {
            if contains_byte(t, b) {
                let i = choose|i: int| 0 <= i < t.len() && t[i] == b;
                assert(s[i + d.len()] == b);
            }
        }
        lemma_split_on_no_byte(t, d, b);
        assert forall|k: int| 0 <= k < fs.len() implies !contains_byte(fs[k], b) by {
            if k == 0 {
                assert(!contains_byte(fs[0], b));
            } else {
                assert(fs[k] == split_on(t, d)[k - 1]);
            }
        }
    } else {
        let t = s.subrange(1, s.len() as int);
        assert(!contains_byte(t, b)) by {
            if contains_byte(t, b) {
                let i = choose|i: int| 0 <= i < t.len() && t[i] == b;
                assert(s[i + 1] == b);
            }
        }
        lemma_split_on_no_byte(t, d, b);
        let rest = split_on(t, d);
        let f0 = seq![s[0]] + rest[0];
        assert(!contains_byte(f0, b)) by {
            if contains_byte(f0, b) {
                let i = choose|i: int| 0 <= i < f0.len() && f0[i] == b;
                if i == 0 {
                    assert(s[0] == b);
                } else {
                    assert(rest[0][i - 1] == b);
                }
            }
        }
        assert forall|k: int| 0 <= k < fs.len() implies !contains_byte(fs[k], b) by {
            if k == 0 {
                assert(fs[0] == f0);
            } else {
                assert(fs[k] == rest[k]);
            }
        }
    }
}

/// Splitting `a ++ ";; " ++ b` peels off `a` as the first field, provided
/// `a` itself is delimiter-free. No occurrence can straddle the boundary,
/// because the delimiter's last byte differs from its first two.
pub proof fn lemma_split_delim_concat(a: Seq<u8>, b: Seq<u8>)
    requires
        !has_match(a, delim()),
    ensures
        split_on(a + delim() + b, delim()) == seq![a] + split_on(b, delim()),
    decreases a.len(),
{
    let d = delim();
    let s = a + d + b;
    if a.len() == 0 {
        assert(s.subrange(0, 3) =~= d);
        assert(s.subrange(3, s.len() as int) =~= b);
        if b.len() == 0 {
            assert(split_on(s, d) =~~= seq![a] + split_on(b, d));
        } else {
            assert(split_on(s, d) =~~= seq![a] + split_on(b, d));
        }
    } else {
        assert(s.len() >= 4);
        assert(!(s.subrange(0, 3) == d)) by {
            if s.subrange(0, 3) == d {
                if a.len() >= 3 {
                    assert(a.subrange(0, 3) =~= s.subrange(0, 3));
                    assert(match_at(a, d, 0));
                } else if a.len() == 2 {
                    assert(s[2] == d[0]);
                    assert(s.subrange(0, 3)[2] == 32);
                } else {
                    assert(s[1] == d[0] && s[2] == d[1]);
                    assert(s.subrange(0, 3)[2] == 32);
                }
            }
        }
        let a1 = a.subrange(1, a.len() as int);
        assert(!has_match(a1, d)) by {
            if match_at(a1, d, choose|i: int| match_at(a1, d, i)) {
                let i = choose|i: int| match_at(a1, d, i);
                assert(a.subrange(i + 1, i + 1 + 3) =~= a1.subrange(i, i + 3));
                assert(match_at(a, d, i + 1));
            }
        }
        lemma_split_delim_concat(a1, b);
        assert(s.subrange(1, s.len() as int) =~= a1 + d + b);
        lemma_split_on_len(a1 + d + b, d);
        assert(split_on(s, d) =~~= seq![a] + split_on(b, d));
    }
}

/// Splitting `a ++ "\n" ++ b` on line feeds peels off `a` as the first
/// piece, provided `a` contains no line feed.
pub proof fn lemma_split_nl_concat(a: Seq<u8>, b: Seq<u8>)
    requires
        !contains_byte(a, 10),
    ensures
        split_on(a + nl() + b, nl()) == seq![a] + split_on(b, nl()),
    decreases a.len(),
{
    let d = nl();
    let s = a + d + b;
    if a.len() == 0 {
        assert(s.subrange(0, 1) =~= d);
        assert(s.subrange(1, s.len() as int) =~= b);
        if b.len() == 0 {
            assert(split_on(s, d) =~~= seq![a] + split_on(b, d));
        } else {
            assert(split_on(s, d) =~~= seq![a] + split_on(b, d));
        }
    } else {
        assert(!(s.subrange(0, 1) == d)) by {
            if s.subrange(0, 1) == d {
                assert(s.subrange(0, 1)[0] == 10);
                assert(s[0] == a[0]);
            }
        }
        let a1 = a.subrange(1, a.len() as int);
        assert(!contains_byte(a1, 10)) by {
            if contains_byte(a1, 10) {
                let i = choose|i: int| 0 <= i < a1.len() && a1[i] == 10;
                assert(a[i + 1] == 10);
            }
        }
        lemma_split_nl_concat(a1, b);
        assert(s.subrange(1, s.len() as int) =~= a1 + d + b);
        lemma_split_on_len(a1 + d + b, d);
        assert(split_on(s, d) =~~= seq![a] + split_on(b, d));
    }
}

/// The views of a sequence of byte vectors.
pub open spec fn views_of(v: Seq<Vec<u8>>) -> Seq<Seq<u8>> {
    v.map_values(|x: Vec<u8>| x@)
}

/// `ss` with `c` glued onto the front of its first element.
pub open spec fn prepend_first(c: Seq<u8>, ss: Seq<Seq<u8>>) -> Seq<Seq<u8>>
    recommends
        ss.len() >= 1,
{
    seq![c + ss[0]] + ss.subrange(1, ss.len() as int)
}

/// Splits a stored line into its fields on each leftmost `";; "`.
pub fn split_fields(line: &[u8]) -> (fields: Vec<Vec<u8>>)
    ensures
        views_of(fields@) == split_on(line@, delim()),
{
    let ghost s = line@;
    let mut fields: Vec<Vec<u8>> = Vec::new();
    let mut cur: Vec<u8> = Vec::new();
    let mut i: usize = 0;
    proof {
        lemma_split_on_len(s, delim());
        assert(s.subrange(0, s.len() as int) =~= s);
        assert(views_of(fields@) + prepend_first(cur@, split_on(s, delim())) =~~= split_on(
            s,
            delim(),
        ));
    }
    while i < line.len()
        invariant
            i <= line.len(),
            line@ == s,
            split_on(s, delim()).len() >= 1,
            split_on(s.subrange(i as int, s.len() as int), delim()).len() >= 1,
            split_on(s, delim()) == views_of(fields@) + prepend_first(
                cur@,
                split_on(s.subrange(i as int, s.len() as int), delim()),
            ),
        decreases line.len() - i,
    {
        let ghost t = s.subrange(i as int, s.len() as int);
        proof {
            lemma_split_on_len(t, delim());
        }
        if line.len() - i >= 3 && line[i] == 59 && line[i + 1] == 59 && line[i + 2] == 32 {
            proof {
                assert(t.subrange(0, 3) =~= delim());
                let t3 = t.subrange(3, t.len() as int);
                assert(t3 =~= s.subrange(i + 3, s.len() as int));
                lemma_split_on_len(t3, delim());
                assert(views_of(fields@.push(cur)) =~= views_of(fields@) + seq![cur@]);
                assert(prepend_first(cur@, split_on(t, delim())) =~~= seq![cur@] + prepend_first(
                    Seq::<u8>::empty(),
                    split_on(t3, delim()),
                ));
            }
            fields.push(cur);
            cur = Vec::new();
            i = i + 3;
        } else {
            proof {
                assert(t.len() >= 1);
                if t.len() >= 3 && t.subrange(0, 3) == delim() {
                    assert(t[0] == 59 && t[1] == 59 && t[2] == 32);
                    assert(s[i as int] == 59 && s[i + 1] == 59 && s[i + 2] == 32);
                }
                let t1 = t.subrange(1, t.len() as int);
                assert(t1 =~= s.subrange(i + 1, s.len() as int));
                lemma_split_on_len(t1, delim());
                assert(t[0] == s[i as int]);
                assert(prepend_first(cur@, split_on(t, delim())) =~~= prepend_first(
                    cur@.push(s[i as int]),
                    split_on(t1, delim()),
                ));
            }
            let b = line[i];
            cur.push(b);
            i = i + 1;
        }
    }
    proof {
        assert(s.subrange(i as int, s.len() as int) =~= Seq::<u8>::empty());
        assert(prepend_first(cur@, split_on(Seq::<u8>::empty(), delim())) =~~= seq![cur@]);
        assert(views_of(fields@.push(cur)) =~= views_of(fields@) + seq![cur@]);
    }
    fields.push(cur);
    proof {
        assert(views_of(fields@) =~~= split_on(s, delim()));
    }
    fields
}

/// Splits on every line feed; the pieces keep any carriage returns.
fn split_nl(contents: &[u8]) -> (pieces: Vec<Vec<u8>>)
    ensures
        views_of(pieces@) == split_on(contents@, nl()),
        pieces@.len() >= 1,
{
    let ghost s = contents@;
    let mut pieces: Vec<Vec<u8>> = Vec::new();
    let mut cur: Vec<u8> = Vec::new();
    let mut i: usize = 0;
    proof {
        lemma_split_on_len(s, nl());
        assert(s.subrange(0, s.len() as int) =~= s);
        assert(views_of(pieces@) + prepend_first(cur@, split_on(s, nl())) =~~= split_on(s, nl()));
    }
    while i < contents.len()
        invariant
            i <= contents.len(),
            contents@ == s,
            split_on(s, nl()).len() >= 1,
            split_on(s.subrange(i as int, s.len() as int), nl()).len() >= 1,
            split_on(s, nl()) == views_of(pieces@) + prepend_first(
                cur@,
                split_on(s.subrange(i as int, s.len() as int), nl()),
            ),
        decreases contents.len() - i,
    {
        let ghost t = s.subrange(i as int, s.len() as int);
        proof {
            lemma_split_on_len(t, nl());
        }
        if contents[i] == 10 {
            proof {
                assert(t.subrange(0, 1) =~= nl());
                let t1 = t.subrange(1, t.len() as int);
                assert(t1 =~= s.subrange(i + 1, s.len() as int));
                lemma_split_on_len(t1, nl());
                assert(views_of(pieces@.push(cur)) =~= views_of(pieces@) + seq![cur@]);
                assert(prepend_first(cur@, split_on(t, nl())) =~~= seq![cur@] + prepend_first(
                    Seq::<u8>::empty(),
                    split_on(t1, nl()),
                ));
            }
            pieces.push(cur);
            cur = Vec::new();
            i = i + 1;
        } else {
            proof {
                assert(t.len() >= 1);
                if t.len() >= 1 && t.subrange(0, 1) == nl() {
                    assert(t.subrange(0, 1)[0] == 10);
                }
                let t1 = t.subrange(1, t.len() as int);
                assert(t1 =~= s.subrange(i + 1, s.len() as int));
                lemma_split_on_len(t1, nl());
                assert(t[0] == s[i as int]);
                assert(prepend_first(cur@, split_on(t, nl())) =~~= prepend_first(
                    cur@.push(s[i as int]),
                    split_on(t1, nl()),
                ));
            }
            let b = contents[i];
            cur.push(b);
            i = i + 1;
        }
    }
    proof {
        assert(s.subrange(i as int, s.len() as int) =~= Seq::<u8>::empty());
        assert(prepend_first(cur@, split_on(Seq::<u8>::empty(), nl())) =~~= seq![cur@]);
        assert(views_of(pieces@.push(cur)) =~= views_of(pieces@) + seq![cur@]);
    }
    pieces.push(cur);
    proof {
        assert(views_of(pieces@) =~~= split_on(s, nl()));
    }
    pieces
}

/// A line with a trailing carriage return loses it; any other line stays.
pub open spec fn strip_cr(l: Seq<u8>) -> Seq<u8> {
    if l.len() >= 1 && l[l.len() - 1] == 13 {
        l.drop_last()
    } else {
        l
    }
}

/// The lines of a stored file: pieces between line feeds, each terminated
/// piece stripped of a trailing carriage return; a final empty piece (the
/// file ending in a line feed) is no line of its own.
pub open spec fn spec_lines(s: Seq<u8>) -> Seq<Seq<u8>> {
    let ps = split_on(s, nl());
    let body = Seq::new((ps.len() - 1) as nat, |k: int| strip_cr(ps[k]));
    if ps.last().len() == 0 {
        body
    } else {
        body.push(ps.last())
    }
}

/// Splits a file into its lines.
pub fn split_lines(contents: &[u8]) -> (lines: Vec<Vec<u8>>)
    ensures
        views_of(lines@) == spec_lines(contents@),
{
    let mut ps = split_nl(contents);
    let ghost all = views_of(ps@);
    let total = ps.len();
    let mut out: Vec<Vec<u8>> = Vec::new();
    let mut k: usize = 0;
    proof {
        assert(ps@.len() == all.len());
        assert(views_of(ps@) =~= all.subrange(0, total as int));
    }
    while k < total - 1
        invariant
            1 <= total,
            k <= total - 1,
            total == all.len(),
            ps@.len() == total - k,
            views_of(ps@) == all.subrange(k as int, total as int),
            views_of(out@) == Seq::new(k as nat, |j: int| strip_cr(all[j])),
        decreases total - k,
    {
        proof {
            assert(views_of(ps@)[0] == ps@[0]@);
            assert(views_of(ps@)[0] == all[k as int]);
        }
        let ghost ps_before = ps@;
        let mut p = ps.remove(0);
        proof {
            assert(p@ == all[k as int]);
            assert(ps@ =~= ps_before.subrange(1, ps_before.len() as int));
            assert forall|j: int| 0 <= j < ps@.len() implies #[trigger] views_of(ps@)[j] == all[k + 1
                + j] by {
                assert(views_of(ps@)[j] == ps@[j]@);
                assert(ps@[j] == ps_before[j + 1]);
                assert(views_of(ps_before)[j + 1] == ps_before[j + 1]@);
            }
            assert(views_of(ps@) =~= all.subrange(k + 1, total as int));
        }
        if p.len() >= 1 && p[p.len() - 1] == 13 {
            p.pop();
        }
        proof {
            assert(p@ =~= strip_cr(all[k as int]));
            assert(views_of(out@.push(p)) =~= views_of(out@) + seq![p@]);
            assert(views_of(out@) + seq![strip_cr(all[k as int])] =~= Seq::new(
                (k + 1) as nat,
                |j: int| strip_cr(all[j]),
            ));
        }
        out.push(p);
        k = k + 1;
    }
    proof {
        assert(views_of(ps@)[0] == ps@[0]@);
        assert(views_of(ps@)[0] == all[k as int]);
    }
    let lastp = ps.remove(0);
    proof {
        assert(lastp@ == all.last());
    }
    if lastp.len() > 0 {
        proof {
            assert(views_of(out@.push(lastp)) =~= views_of(out@) + seq![lastp@]);
            assert(views_of(out@) + seq![lastp@] =~~= spec_lines(contents@));
        }
        out.push(lastp);
    } else {
        proof {
            assert(views_of(out@) =~~= spec_lines(contents@));
        }
    }
    out
}

/// Appends every byte of `s`.
pub fn push_all(out: &mut Vec<u8>, s: &[u8])
    ensures
        final(out)@ == old(out)@ + s@,
{
    let mut i: usize = 0;
    while i < s.len()
        invariant
            i <= s.len(),
            out@ == old(out)@ + s@.subrange(0, i as int),
        decreases s.len() - i,
    {
        out.push(s[i]);
        proof {
            assert(old(out)@ + s@.subrange(0, i as int) + seq![s@[i as int]] =~= old(out)@
                + s@.subrange(0, i + 1));
        }
        i = i + 1;
    }
    proof {
        assert(old(out)@ + s@.subrange(0, i as int) =~= old(out)@ + s@);
    }
}

/// Appends the field delimiter `";; "`.
pub fn push_delim(out: &mut Vec<u8>)
    ensures
        final(out)@ == old(out)@ + delim(),
{
    out.push(59);
    out.push(59);
    out.push(32);
    proof {
        assert(final(out)@ =~= old(out)@ + delim());
    }
}

/// Copies a byte vector.
pub fn clone_bytes(v: &Vec<u8>) -> (r: Vec<u8>)
    ensures
        r@ == v@,
{
    let r = v.clone();
    proof {
        assert forall|i: int| 0 <= i < r@.len() implies r@[i] == v@[i] by {
            assert(cloned::<u8>(v@[i], r@[i]));
        }
        assert(r@ =~= v@);
    }
    r
}

/// A line-feed occurrence is exactly a line-feed byte.
pub proof fn lemma_nl_match(f: Seq<u8>)
    ensures
        has_match(f, nl()) <==> contains_byte(f, 10),
{
    if has_match(f, nl()) {
        let i = choose|i: int| match_at(f, nl(), i);
        assert(f.subrange(i, i + 1)[0] == 10);
        assert(f[i] == 10);
    }
    if contains_byte(f, 10) {
        let i = choose|i: int| 0 <= i < f.len() && f[i] == 10;
        assert(f.subrange(i, i + 1) =~= nl());
        assert(match_at(f, nl(), i));
    }
}

/// No line of a file contains a line feed.
pub proof fn lemma_lines_no_nl(s: Seq<u8>)
    ensures
        forall|k: int|
            0 <= k < spec_lines(s).len() ==> !contains_byte(#[trigger] spec_lines(s)[k], 10),
{
    let ps = split_on(s, nl());
    lemma_split_on_no_match(s, nl());
    lemma_split_on_len(s, nl());
    assert forall|k: int| 0 <= k < spec_lines(s).len() implies !contains_byte(
        spec_lines(s)[k],
        10,
    ) by {
        lemma_nl_match(ps[k]);
        assert(!contains_byte(ps[k], 10));
        if k < ps.len() - 1 {
            assert(spec_lines(s)[k] == strip_cr(ps[k]));
            if contains_byte(strip_cr(ps[k]), 10) {
                let i = choose|i: int| 0 <= i < strip_cr(ps[k]).len() && strip_cr(ps[k])[i] == 10;
                assert(ps[k][i] == 10);
            }
        } else {
            assert(spec_lines(s)[k] == ps.last());
        }
    }
}

/// A byte occurs in a joined string exactly when it occurs in a part.
pub proof fn lemma_contains_byte_concat(a: Seq<u8>, b: Seq<u8>, c: u8)
    ensures
        contains_byte(a + b, c) <==> (contains_byte(a, c) || contains_byte(b, c)),
{
    if contains_byte(a + b, c) {
        let i = choose|i: int| 0 <= i < (a + b).len() && (a + b)[i] == c;
        if i < a.len() {
            assert(a[i] == c);
        } else {
            assert(b[i - a.len()] == c);
        }
    }
    if contains_byte(a, c) {
        let i = choose|i: int| 0 <= i < a.len() && a[i] == c;
        assert((a + b)[i] == c);
    }
    if contains_byte(b, c) {
        let i = choose|i: int| 0 <= i < b.len() && b[i] == c;
        assert((a + b)[a.len() + i] == c);
    }
}

/// Whether `s` is one or more decimal digit bytes.
pub open spec fn is_digits(s: Seq<u8>) -> bool {
    s.len() >= 1 && forall|i: int| 0 <= i < s.len() ==> 48 <= #[trigger] s[i] <= 57
}

/// The value of a run of decimal digit bytes, most significant first.
pub open spec fn digits_value(s: Seq<u8>) -> int
    decreases s.len(),
{
    if s.len() == 0 {
        0
    } else {
        digits_value(s.drop_last()) * 10 + (s.last() - 48)
    }
}

/// The digits of a stored number, behind an optional leading plus sign.
pub open spec fn num_body(s: Seq<u8>) -> Seq<u8> {
    if s.len() >= 1 && s[0] == 43 {
        s.subrange(1, s.len() as int)
    } else {
        s
    }
}

/// Whether `s` is accepted as a non-negative number no larger than `u64::MAX`.
pub open spec fn is_num(s: Seq<u8>) -> bool {
    is_digits(num_body(s)) && digits_value(num_body(s)) <= u64::MAX
}

/// The value of an accepted number.
pub open spec fn num_value(s: Seq<u8>) -> int {
    digits_value(num_body(s))
}

/// The value of a digit run is never negative.
pub proof fn lemma_digits_value_nonneg(s: Seq<u8>)
    requires
        forall|i: int| 0 <= i < s.len() ==> 48 <= #[trigger] s[i],
    ensures
        digits_value(s) >= 0,
    decreases s.len(),
{
    if s.len() > 0 {
        lemma_digits_value_nonneg(s.drop_last());
    }
}

/// Reading one more digit can only push the value of the whole run higher.
pub proof fn lemma_digits_value_step(s: Seq<u8>, k: int)
    requires
        forall|i: int| 0 <= i < s.len() ==> 48 <= #[trigger] s[i] <= 57,
        0 <= k < s.len(),
    ensures
        digits_value(s) >= digits_value(s.take(k)) * 10 + (s[k] - 48),
    decreases s.len(),
{
    if k == s.len() - 1 {
        assert(s.take(k) =~= s.drop_last());
    } else {
        let h = s.drop_last();
        lemma_digits_value_step(h, k);
        assert(h.take(k) =~= s.take(k));
        lemma_digits_value_nonneg(h);
        lemma_digits_value_nonneg(s.take(k));
    }
}

/// The decimal digits of a non-negative number, most significant first.
pub open spec fn dec_digits(n: nat) -> Seq<u8>
    decreases n,
{
    if n < 10 {
        seq![(48 + n) as u8]
    } else {
        dec_digits(n / 10).push((48 + n % 10) as u8)
    }
}

/// A rendered number is a digit run whose value is the number again, so
/// parsing what was rendered always succeeds and returns the same value.
pub proof fn lemma_dec_digits_value(n: nat)
    ensures
        is_digits(dec_digits(n)),
        digits_value(dec_digits(n)) == n,
        dec_digits(n).len() >= 1,
    decreases n,
{
    if n < 10 {
        let w = dec_digits(n);
        assert(w.drop_last().len() == 0);
        assert(digits_value(w.drop_last()) == 0);
        assert(digits_value(w) == w.last() - 48);
    } else {
        lemma_dec_digits_value(n / 10);
        let w = dec_digits(n);
        vstd::arithmetic::div_mod::lemma_fundamental_div_mod(n as int, 10);
        vstd::arithmetic::div_mod::lemma_mod_bound(n as int, 10);
        assert(w.drop_last() =~= dec_digits(n / 10));
        assert(w.last() == (48 + n % 10) as u8);
        assert(48 + n % 10 < 256);
        assert(digits_value(w) == digits_value(dec_digits(n / 10)) * 10 + (n % 10));
    }
}

/// A rendered number parses back to itself.
pub proof fn lemma_dec_digits_roundtrip(n: u64)
    ensures
        is_num(dec_digits(n as nat)),
        num_value(dec_digits(n as nat)) == n,
        !has_match(dec_digits(n as nat), delim()),
        !contains_byte(dec_digits(n as nat), 10),
        dec_digits(n as nat).last() != 13,
{
    let w = dec_digits(n as nat);
    lemma_dec_digits_value(n as nat);
    assert(num_body(w) == w);
    assert forall|i: int| !match_at(w, delim(), i) by {
        if match_at(w, delim(), i) {
            assert(w.subrange(i, i + 3)[0] == 59);
            assert(w[i] == 59);
        }
    }
    assert(!contains_byte(w, 10)) by {
        if contains_byte(w, 10) {
            let i = choose|i: int| 0 <= i < w.len() && w[i] == 10;
        }
    }
}

/// Parses a non-negative decimal number with an optional leading plus
/// sign. Returns nothing on an empty field, a stray byte, or a value too
/// large for a `u64` — the same fields the stored format silently drops.
pub fn parse_u64(s: &[u8]) -> (r: Option<u64>)
    ensures
        match r {
            Some(v) => is_num(s@) && v == num_value(s@),
            None => !is_num(s@),
        },
{
    let start: usize = if s.len() >= 1 && s[0] == 43 {
        1
    } else {
        0
    };
    let ghost body = num_body(s@);
    proof {
        assert(body =~= s@.subrange(start as int, s@.len() as int));
    }
    if s.len() == start {
        return None;
    }
    let mut acc: u64 = 0;
    let mut i: usize = start;
    while i < s.len()
        invariant
            start <= i <= s.len(),
            body == num_body(s@),
            body == s@.subrange(start as int, s@.len() as int),
            body.len() == s@.len() - start,
            forall|j: int| start <= j < i ==> 48 <= #[trigger] s@[j] <= 57,
            acc == digits_value(body.take(i - start)),
        decreases s.len() - i,
    {
        let c = s[i];
        if c < 48 || c > 57 {
            proof {
                assert(body[i - start] == s@[i as int]);
                assert(!is_digits(body));
            }
            return None;
        }
        let d = (c - 48) as u64;
        proof {
            assert(body.take(i + 1 - start).drop_last() =~= body.take(i - start));
            assert(body.take(i + 1 - start).last() == c);
            lemma_digits_value_nonneg(body.take(i - start));
        }
        if acc > (u64::MAX - d) / 10 {
            proof {
                let p = body.take(i - start);
                assert(digits_value(p) * 10 + d > u64::MAX) by {
                    assert(acc >= (u64::MAX - d) / 10 + 1);
                    assert((u64::MAX - d) / 10 * 10 + (u64::MAX - d) % 10 == u64::MAX - d);
                }
                if is_digits(body) {
                    lemma_digits_value_step(body, i - start);
                    assert(digits_value(body) > u64::MAX);
                }
            }
            return None;
        }
        proof {
            assert(acc * 10 + d <= u64::MAX) by {
                assert(acc <= (u64::MAX - d) / 10);
                assert((u64::MAX - d) / 10 * 10 + (u64::MAX - d) % 10 == u64::MAX - d);
            }
        }
        acc = acc * 10 + d;
        i = i + 1;
    }
    proof {
        assert(body.take(i - start) =~= body);
        assert(is_digits(body));
    }
    Some(acc)
}

/// Appends the decimal rendering of `n`.
pub fn push_dec(n: u64, out: &mut Vec<u8>)
    ensures
        final(out)@ == old(out)@ + dec_digits(n as nat),
    decreases n,
{
    if n < 10 {
        out.push(48 + n as u8);
        proof {
            assert(final(out)@ =~= old(out)@ + dec_digits(n as nat));
        }
    } else {
        push_dec(n / 10, out);
        out.push(48 + (n % 10) as u8);
        proof {
            assert(final(out)@ =~= old(out)@ + dec_digits(n as nat));
        }
    }
}

} // verus!
