use vstd::prelude::*;

use crate::constraint::{discard_spec, lines_view, lines_wf, Constraint};
use crate::group::{GroupType, Label};
use crate::line::{degree_spec, normalized_from, Degree, Line, PartV};
use crate::parse::{line_scan, line_too_large, parts_match, total_len};
use crate::part::{names_view, part_error_text};
use crate::text::{str_to_chars, string_from_chars};

verus! {

/// Drops one carriage return at the end of a line.
pub open spec fn strip_cr(t: Seq<char>) -> Seq<char> {
    if t.len() > 0 && t.last() == '\r' {
        t.drop_last()
    } else {
        t
    }
}

/// Splits `cs[i..]` into lines as `str::lines` does, given the line being read
/// (`cur`) and the lines read before it (`acc`): a line ends at `\n`, and a
/// `\r` just before it is dropped; the text after the last `\n` is a line when
/// it is not empty.
pub open spec fn split_lines(cs: Seq<char>, i: int, cur: Seq<char>, acc: Seq<Seq<char>>) -> Seq<Seq<char>>
    decreases cs.len() - i,
{
    if i >= cs.len() {
        if cur.len() > 0 { acc.push(cur) } else { acc }
    } else if cs[i] == '\n' {
        split_lines(cs, i + 1, Seq::empty(), acc.push(strip_cr(cur)))
    } else {
        split_lines(cs, i + 1, cur.push(cs[i]), acc)
    }
}

/// The lines of a text.
pub open spec fn text_lines(cs: Seq<char>) -> Seq<Seq<char>> {
    split_lines(cs, 0, Seq::empty(), Seq::empty())
}

/// The total length of some lines, each counted with one character more for
/// its end.
pub open spec fn lines_len(ls: Seq<Seq<char>>) -> nat
    decreases ls.len(),
{
    if ls.len() == 0 { 0 } else { lines_len(ls.drop_last()) + ls.last().len() + 1 }
}

/// The lines of a text, in order.
pub fn split_text_lines(cs: &Vec<char>) -> (r: Vec<Vec<char>>)
    ensures
        r@.map_values(|t: Vec<char>| t@) == text_lines(cs@),
        total_len(r@.map_values(|t: Vec<char>| t@)) <= cs@.len(),
        lines_len(r@.map_values(|t: Vec<char>| t@)) <= cs@.len() + 1,
{
    let mut acc: Vec<Vec<char>> = Vec::new();
    let mut cur: Vec<char> = Vec::new();
    let mut i: usize = 0;
    assert(acc@.map_values(|t: Vec<char>| t@) =~= Seq::<Seq<char>>::empty());
    while i < cs.len()
        invariant
            i <= cs@.len(),
            total_len(acc@.map_values(|t: Vec<char>| t@)) + cur@.len() <= i,
            lines_len(acc@.map_values(|t: Vec<char>| t@)) + cur@.len() <= i,
            text_lines(cs@) == split_lines(cs@, i as int, cur@, acc@.map_values(|t: Vec<char>| t@)),
        decreases cs@.len() - i,
    {
        let ghost av = acc@.map_values(|t: Vec<char>| t@);
        if cs[i] == '\n' {
            let mut t = cur;
            if t.len() > 0 && t[t.len() - 1] == '\r' {
                t.pop();
            }
            assert(t@ == strip_cr(cur@));
            acc.push(t);
            cur = Vec::new();
            assert(acc@.map_values(|t: Vec<char>| t@) =~= av.push(t@));
            assert(av.push(t@).drop_last() =~= av);
            assert(cur@ =~= Seq::<char>::empty());
        } else {
            cur.push(cs[i]);
        }
        i += 1;
    }
    let ghost av = acc@.map_values(|t: Vec<char>| t@);
    if cur.len() > 0 {
        let t = cur;
        acc.push(t);
        assert(acc@.map_values(|t: Vec<char>| t@) =~= av.push(t@));
        assert(av.push(t@).drop_last() =~= av);
    }
    acc
}

/// The parts read from a line.
pub type ScannedLine = Seq<(GroupType, Set<Label>)>;

/// Every way to write the scanned parts as a line is too large.
pub open spec fn scan_too_large(qs: ScannedLine) -> bool {
    forall|ps: Seq<PartV>| #[trigger] parts_match(ps, qs) ==> line_too_large(ps)
}

/// Reading the lines `ls` one after the other, from the label names `names`:
/// the parts of each line and the names after the last, or the message of the
/// first error.
pub open spec fn lines_scan(ls: Seq<Seq<char>>, names: Seq<Seq<char>>) -> Result<(Seq<ScannedLine>, Seq<Seq<char>>), Seq<char>>
    decreases ls.len(),
{
    if ls.len() == 0 {
        Ok((Seq::empty(), names))
    } else {
        match lines_scan(ls.drop_last(), names) {
            Err(m) => Err(m),
            Ok(prev) => match line_scan(ls.last(), prev.1) {
                Err(e) => Err(part_error_text(e)),
                Ok(cur) => if scan_too_large(cur.0) {
                    Err("Line too large"@)
                } else {
                    Ok((prev.0.push(cur.0), cur.1))
                },
            },
        }
    }
}

/// The line `l` is the scanned line `q` brought into normal form.
pub open spec fn line_from(l: Seq<PartV>, q: ScannedLine) -> bool {
    exists|ps: Seq<PartV>| parts_match(ps, q) && !line_too_large(ps) && #[trigger] normalized_from(l, ps)
}

/// The lines `ls` are the scanned lines brought into normal form.
pub open spec fn lines_from(ls: Seq<Seq<PartV>>, qss: Seq<ScannedLine>) -> bool {
    &&& ls.len() == qss.len()
    &&& forall|k: int| 0 <= k < ls.len() ==> #[trigger] line_from(ls[k], qss[k])
}

/// Reading one more line in normal form.
proof fn lemma_lines_from_push(ls: Seq<Seq<PartV>>, qss: Seq<ScannedLine>, l: Seq<PartV>, q: ScannedLine, ps: Seq<PartV>)
    requires
        lines_from(ls, qss),
        parts_match(ps, q),
        !line_too_large(ps),
        normalized_from(l, ps),
    ensures
        lines_from(ls.push(l), qss.push(q)),
{
    let ls2 = ls.push(l);
    let qs2 = qss.push(q);
    assert forall|j: int| 0 <= j < ls2.len() implies #[trigger] line_from(ls2[j], qs2[j]) by {
        if j < ls.len() {
            assert(ls2[j] == ls[j]);
            assert(qs2[j] == qss[j]);
            assert(line_from(ls[j], qss[j]));
        } else {
            assert(ls2[j] == l);
            assert(qs2[j] == q);
            assert(normalized_from(l, ps));
        }
    }
}

/// An error in the first lines is the error of the whole text.
proof fn lemma_scan_error_stays(ls: Seq<Seq<char>>, names: Seq<Seq<char>>, k: int)
    requires
        0 <= k <= ls.len(),
        lines_scan(ls.subrange(0, k), names) is Err,
    ensures
        lines_scan(ls, names) == lines_scan(ls.subrange(0, k), names),
    decreases ls.len() - k,
{
    if k < ls.len() {
        assert(ls.subrange(0, k + 1).drop_last() =~= ls.subrange(0, k));
        lemma_scan_error_stays(ls, names, k + 1);
    } else {
        assert(ls.subrange(0, k) =~= ls);
    }
}

/// What reading a constraint from `text` with the label names `names` gives:
/// `r`, with the label names `names_out` after it. Errors of the lines come
/// first; then an empty text and lines of different degrees are refused; else
/// the lines in normal form, of which only the maximal ones are kept.
pub open spec fn constraint_read(text: Seq<char>, names: Seq<Seq<char>>, r: Result<Constraint, &'static str>, names_out: Seq<Seq<char>>) -> bool {
    match lines_scan(text_lines(text), names) {
        Err(m) => r is Err && r->Err_0@ == m,
        Ok(res) => {
            &&& names_out == res.1
            &&& res.0.len() == 0 ==> (r is Err && r->Err_0@ == "Empty constraint"@)
            &&& r is Ok ==> {
                let c = r->Ok_0;
                &&& c.wf()
                &&& !c.is_maximized
                &&& res.0.len() > 0
                &&& exists|ls: Seq<Seq<PartV>>| #[trigger] lines_from(ls, res.0)
                    && c.degree == degree_spec(ls[0])
                    && (forall|k: int| 0 <= k < ls.len() ==> degree_spec(#[trigger] ls[k]) == degree_spec(ls[0]))
                    && c@ == discard_spec(ls)
            }
            &&& (res.0.len() > 0 && r is Err) ==> r->Err_0@ == "Lines have different degrees"@
                && exists|ls: Seq<Seq<PartV>>| #[trigger] lines_from(ls, res.0)
                    && exists|k: int| 0 <= k < ls.len() && degree_spec(#[trigger] ls[k]) != degree_spec(ls[0])
        },
    }
}

impl Constraint {
    /// Reads a constraint: one line per line of the text, all of the same
    /// degree, of which only the maximal ones are kept.
    #[verifier::spinoff_prover]
    #[verifier::rlimit(40)]
    pub fn parse(text: &str, mapping: &mut Vec<String>) -> (r: Result<Constraint, &'static str>)
        requires
            old(mapping)@.len() + text@.len() < u32::MAX,
        ensures
            constraint_read(text@, names_view(old(mapping)@), r, names_view(final(mapping)@)),
            final(mapping)@.len() <= old(mapping)@.len() + text@.len(),
    {
        let cs = str_to_chars(text);
        let tls = split_text_lines(&cs);
        let ghost tv = tls@.map_values(|t: Vec<char>| t@);
        let ghost names0 = names_view(mapping@);
        let ghost m0 = mapping@.len();
        let mut lines: Vec<Line> = Vec::new();
        let ghost mut qss: Seq<ScannedLine> = Seq::empty();
        let mut k: usize = 0;
        assert(lines_view(lines@) =~= Seq::<Seq<PartV>>::empty());
        while k < tls.len()
            invariant
                tv == tls@.map_values(|t: Vec<char>| t@),
                tv == text_lines(text@),
                cs@ == text@,
                total_len(tv) <= text@.len(),
                names0 == names_view(old(mapping)@),
                m0 == old(mapping)@.len(),
                m0 + text@.len() < u32::MAX,
                k <= tv.len(),
                mapping@.len() <= m0 + total_len(tv.subrange(0, k as int)),
                lines_scan(tv.subrange(0, k as int), names0) == Ok::<(Seq<ScannedLine>, Seq<Seq<char>>), Seq<char>>((qss, names_view(mapping@))),
                lines_from(lines_view(lines@), qss),
                forall|q: int| 0 <= q < lines@.len() ==> (#[trigger] lines@[q]).wf(),
            decreases tv.len() - k,
        {
            let s = string_from_chars(&tls[k]);
            assert(s@ == tv[k as int]);
            proof {
                crate::parse::lemma_total_len_prefix(tv, k + 1);
                assert(tv.subrange(0, k + 1).drop_last() =~= tv.subrange(0, k as int));
                assert(tv.subrange(0, k + 1).last() == tv[k as int]);
            }
            let ghost nm = names_view(mapping@);
            let ghost sc = line_scan(s@, nm);
            match Line::parse(s.as_str(), mapping) {
                Ok(l) => {
                    let ghost before = lines_view(lines@);
                    let ghost lines_before = lines@;
                    let ghost q = sc->Ok_0.0;
                    proof {
                        let ps = choose|ps: Seq<PartV>| #[trigger] parts_match(ps, q) && !line_too_large(ps) && normalized_from(l@, ps);
                        assert(!scan_too_large(q));
                    }
                    lines.push(l);
                    proof {
                        let ps = choose|ps: Seq<PartV>| #[trigger] parts_match(ps, q) && !line_too_large(ps) && normalized_from(l@, ps);
                        lemma_lines_from_push(before, qss, l@, q, ps);
                        qss = qss.push(q);
                        assert(lines_view(lines@) =~= before.push(l@));
                        assert forall|j: int| 0 <= j < lines@.len() implies (#[trigger] lines@[j]).wf() by {
                            if j < before.len() {
                                assert(lines@[j] == lines_before[j]);
                            }
                        }
                    }
                },
                Err(e) => {
                    proof {
                        lemma_scan_error_stays(tv, names0, k + 1);
                    }
                    return Err(e);
                },
            }
            k += 1;
        }
        assert(tv.subrange(0, tv.len() as int) =~= tv);
        if lines.len() == 0 {
            return Err("Empty constraint");
        }
        let degree = lines[0].degree();
        let mut j: usize = 1;
        while j < lines.len()
            invariant
                1 <= j <= lines@.len(),
                forall|q: int| 0 <= q < lines@.len() ==> (#[trigger] lines@[q]).wf(),
                lines_from(lines_view(lines@), qss),
                tv == text_lines(text@),
                names0 == names_view(old(mapping)@),
                lines_scan(tv, names0) == Ok::<(Seq<ScannedLine>, Seq<Seq<char>>), Seq<char>>((qss, names_view(mapping@))),
                mapping@.len() <= old(mapping)@.len() + text@.len(),
                degree == degree_spec(lines@[0]@),
                forall|q: int| 0 <= q < j ==> degree_spec((#[trigger] lines@[q])@) == degree,
            decreases lines@.len() - j,
        {
            if lines[j].degree() != degree {
                proof {
                    let ls = lines_view(lines@);
                    assert(ls[j as int] == lines@[j as int]@);
                    assert(ls[0] == lines@[0]@);
                    assert(lines_from(ls, qss));
                    assert(degree_spec(ls[j as int]) != degree_spec(ls[0]));
                }
                return Err("Lines have different degrees");
            }
            j += 1;
        }
        let ghost ls = lines_view(lines@);
        proof {
            assert(ls[0] == lines@[0]@);
            assert forall|q: int| 0 <= q < ls.len() implies degree_spec(#[trigger] ls[q]) == degree_spec(ls[0]) by {
                assert(ls[q] == lines@[q]@);
            }
        }
        let mut c = Constraint { lines, is_maximized: false, degree };
        proof {
            assert forall|q: int| 0 <= q < c.lines@.len() implies (#[trigger] c.lines@[q]).wf() && degree_spec(c.lines@[q]@) == degree by {
            }
            assert(c@ == ls);
        }
        c.discard_non_maximal_lines();
        proof {
            assert(lines_from(ls, qss));
            assert(c.degree == degree_spec(ls[0]));
            assert(c@ == discard_spec(ls));
            assert(lines_scan(text_lines(text@), names0) == Ok::<(Seq<ScannedLine>, Seq<Seq<char>>), Seq<char>>((qss, names_view(mapping@))));
            assert(exists|ls2: Seq<Seq<PartV>>| #[trigger] lines_from(ls2, qss)
                && c.degree == degree_spec(ls2[0])
                && (forall|k: int| 0 <= k < ls2.len() ==> degree_spec(#[trigger] ls2[k]) == degree_spec(ls2[0]))
                && c@ == discard_spec(ls2));
            assert(c.wf());
            assert(!c.is_maximized);
            assert(qss.len() > 0);
            assert(names_view(mapping@) == lines_scan(text_lines(text@), names0)->Ok_0.1);
        }
        Ok(c)
    }
}

} // verus!
