use vstd::prelude::*;

use crate::group::{strictly_sorted, Group, GroupType, Label};
use crate::line::{degree_without_star_spec, normalized_from, parts_wf, Line, PartV, MAX_PARTS};
use crate::order::parts_view;
use crate::part::{names_view, part_error_text, part_scan, Part, PartError, ScanState};
use crate::text::{is_white_space, str_to_chars, string_from_chars, white_space};

verus! {

/// Splits `cs[i..]` at white space, as `str::split_whitespace` does, given the
/// token being read (`cur`) and the tokens read before it (`acc`).
pub open spec fn split_ws(cs: Seq<char>, i: int, cur: Seq<char>, acc: Seq<Seq<char>>) -> Seq<Seq<char>>
    decreases cs.len() - i,
{
    if i >= cs.len() {
        if cur.len() > 0 { acc.push(cur) } else { acc }
    } else if is_white_space(cs[i]) {
        split_ws(cs, i + 1, Seq::empty(), if cur.len() > 0 { acc.push(cur) } else { acc })
    } else {
        split_ws(cs, i + 1, cur.push(cs[i]), acc)
    }
}

/// The white-space separated tokens of `cs`.
pub open spec fn tokens(cs: Seq<char>) -> Seq<Seq<char>> {
    split_ws(cs, 0, Seq::empty(), Seq::empty())
}

/// The total length of a sequence of texts.
pub open spec fn total_len(ts: Seq<Seq<char>>) -> nat
    decreases ts.len(),
{
    if ts.len() == 0 { 0 } else { total_len(ts.drop_last()) + ts.last().len() }
}

pub proof fn lemma_total_len_prefix(ts: Seq<Seq<char>>, n: int)
    requires
        0 <= n <= ts.len(),
    ensures
        total_len(ts.subrange(0, n)) <= total_len(ts),
    decreases ts.len() - n,
{
    if n < ts.len() {
        lemma_total_len_prefix(ts, n + 1);
        assert(ts.subrange(0, n + 1).drop_last() =~= ts.subrange(0, n));
    } else {
        assert(ts.subrange(0, n) =~= ts);
    }
}

/// The tokens of a text, in order.
pub fn split_whitespace(cs: &Vec<char>) -> (r: Vec<Vec<char>>)
    ensures
        r@.map_values(|t: Vec<char>| t@) == tokens(cs@),
        total_len(r@.map_values(|t: Vec<char>| t@)) <= cs@.len(),
{
    let mut acc: Vec<Vec<char>> = Vec::new();
    let mut cur: Vec<char> = Vec::new();
    let mut i: usize = 0;
    assert(acc@.map_values(|t: Vec<char>| t@) =~= Seq::<Seq<char>>::empty());
    while i < cs.len()
        invariant
            i <= cs@.len(),
            total_len(acc@.map_values(|t: Vec<char>| t@)) + cur@.len() <= i,
            tokens(cs@) == split_ws(cs@, i as int, cur@, acc@.map_values(|t: Vec<char>| t@)),
        decreases cs@.len() - i,
    {
        let ghost av = acc@.map_values(|t: Vec<char>| t@);
        if white_space(cs[i]) {
            if cur.len() > 0 {
                let t = cur;
                acc.push(t);
                cur = Vec::new();
                assert(acc@.map_values(|t: Vec<char>| t@) =~= av.push(t@));
                assert(av.push(t@).drop_last() =~= av);
            } else {
                cur = Vec::new();
            }
            assert(cur@ =~= Seq::<char>::empty());
        } else {
            cur.push(cs[i]);
        }
        i += 1;
    }
    let ghost av = acc@.map_values(|t: Vec<char>| t@);
    if cur.len() > 0 {
        let t = cur;
        acc.push(t);
        assert(acc@.map_values(|t: Vec<char>| t@) =~= av.push(t@));
        assert(av.push(t@).drop_last() =~= av);
    }
    acc
}

/// Reads the tokens `toks[j..]` as parts, after the parts `acc` were read and
/// with the label names `names` known. Each part is its number of occurrences
/// with the set of its labels.
pub open spec fn scan_parts(toks: Seq<Seq<char>>, j: int, acc: Seq<(GroupType, Set<Label>)>, names: Seq<Seq<char>>) -> Result<(Seq<(GroupType, Set<Label>)>, Seq<Seq<char>>), PartError>
    decreases toks.len() - j,
{
    if j >= toks.len() || j < 0 {
        Ok((acc, names))
    } else {
        match part_scan(toks[j], names) {
            Err(e) => Err(e),
            Ok(st) => scan_parts(toks, j + 1, acc.push((st.gtype, st.group.to_set())), st.names),
        }
    }
}

/// The parts `ps` are the parts `qs` read from text: the same numbers of
/// occurrences, and groups holding the same labels in increasing order.
pub open spec fn parts_match(ps: Seq<PartV>, qs: Seq<(GroupType, Set<Label>)>) -> bool {
    &&& ps.len() == qs.len()
    &&& forall|k: int| 0 <= k < ps.len() ==> (#[trigger] ps[k]).0 == qs[k].0 && strictly_sorted(ps[k].1) && ps[k].1.to_set() == qs[k].1
}

/// A line too large to be read: more than `MAX_PARTS` parts, or exponents that
/// add up to more than 255.
pub open spec fn line_too_large(ps: Seq<PartV>) -> bool {
    ps.len() > MAX_PARTS || degree_without_star_spec(ps) > 255
}

/// What reading the text of a line yields: its parts, and the label names.
pub open spec fn line_scan(cs: Seq<char>, names: Seq<Seq<char>>) -> Result<(Seq<(GroupType, Set<Label>)>, Seq<Seq<char>>), PartError> {
    scan_parts(tokens(cs), 0, Seq::empty(), names)
}

proof fn lemma_parts_match_unique(ps: Seq<PartV>, ps2: Seq<PartV>, qs: Seq<(GroupType, Set<Label>)>)
    requires
        parts_match(ps, qs),
        parts_match(ps2, qs),
    ensures
        ps == ps2,
{
    assert forall|k: int| 0 <= k < ps.len() implies ps[k] == ps2[k] by {
        crate::normalize::lemma_sorted_same_set(ps[k].1, ps2[k].1);
    }
    assert(ps =~= ps2);
}

impl Line {
    /// Reads a line: parts separated by white space, brought into normal form.
    pub fn parse(line: &str, mapping: &mut Vec<String>) -> (r: Result<Line, &'static str>)
        requires
            old(mapping)@.len() + line@.len() < u32::MAX,
        ensures
            line_scan(line@, names_view(old(mapping)@)) matches Err(e) ==> r matches Err(m) && m@ == part_error_text(e),
            line_scan(line@, names_view(old(mapping)@)) is Ok ==> names_view(final(mapping)@) == line_scan(line@, names_view(old(mapping)@))->Ok_0.1,
            r matches Ok(l) ==> l.wf() && line_scan(line@, names_view(old(mapping)@)) is Ok
                && exists|ps: Seq<PartV>| #[trigger] parts_match(ps, line_scan(line@, names_view(old(mapping)@))->Ok_0.0)
                && !line_too_large(ps) && normalized_from(l@, ps),
            (line_scan(line@, names_view(old(mapping)@)) is Ok && r is Err) ==> r->Err_0@ == "Line too large"@
                && forall|ps: Seq<PartV>| #[trigger] parts_match(ps, line_scan(line@, names_view(old(mapping)@))->Ok_0.0) ==> line_too_large(ps),
            final(mapping)@.len() <= old(mapping)@.len() + line@.len(),
    {
        let cs = str_to_chars(line);
        let toks = split_whitespace(&cs);
        let ghost tv = toks@.map_values(|t: Vec<char>| t@);
        let ghost names0 = names_view(mapping@);
        let mut parts: Vec<Part> = Vec::new();
        let mut j: usize = 0;
        let mut total: usize = 0;
        let mut too_large = false;
        let ghost mut acc: Seq<(GroupType, Set<Label>)> = Seq::empty();
        while j < toks.len()
            invariant
                tv == toks@.map_values(|t: Vec<char>| t@),
                tv == tokens(line@),
                cs@ == line@,
                names0 == names_view(old(mapping)@),
                total_len(tv) <= cs@.len(),
                j <= toks@.len(),
                parts@.len() == j,
                mapping@.len() <= old(mapping)@.len() + total_len(tv.subrange(0, j as int)),
                old(mapping)@.len() + line@.len() < u32::MAX,
                line_scan(line@, names0) == scan_parts(tv, j as int, acc, names_view(mapping@)),
                parts_match(parts_view(parts@), acc),
                !too_large ==> parts@.len() <= MAX_PARTS && total == degree_without_star_spec(parts_view(parts@)) && total <= 255,
                too_large ==> line_too_large(parts_view(parts@)),
            decreases toks@.len() - j,
        {
            let ghost av = parts_view(parts@);
            let t = string_from_chars(&toks[j]);
            assert(t@ == tv[j as int]);
            proof {
                lemma_total_len_prefix(tv, j + 1);
                assert(tv.subrange(0, j + 1).drop_last() =~= tv.subrange(0, j as int));
            }
            proof {
                lemma_total_len_prefix(tv, j as int);
            }
            let ghost st0 = part_scan(t@, names_view(mapping@));
            let ghost was = too_large;
            let p = match Part::parse(t.as_str(), mapping) {
                Ok(p) => p,
                Err(m) => {
                    assert(line_scan(line@, names0) == Err::<(Seq<(GroupType, Set<Label>)>, Seq<Seq<char>>), PartError>(st0->Err_0));
                    return Err(m);
                },
            };
            let ghost st = st0->Ok_0;
            match p.gtype {
                GroupType::Many(n) => {
                    if !too_large {
                        if total + n as usize > 255 || parts.len() >= MAX_PARTS {
                            too_large = true;
                        } else {
                            total = total + n as usize;
                        }
                    }
                },
                GroupType::Star => {
                    if !too_large && parts.len() >= MAX_PARTS {
                        too_large = true;
                    }
                },
            }
            parts.push(p);
            proof {
                acc = acc.push((st.gtype, st.group.to_set()));
                assert(parts_view(parts@) =~= av.push(parts@[j as int]@));
                assert(av.push(parts@[j as int]@).drop_last() =~= av);
                assert forall|k: int| 0 <= k < parts_view(parts@).len() implies (#[trigger] parts_view(parts@)[k]).0 == acc[k].0 && strictly_sorted(parts_view(parts@)[k].1) && parts_view(parts@)[k].1.to_set() == acc[k].1 by {
                    if k < j {
                        assert(parts_view(parts@)[k] == av[k]);
                    }
                }
                if was {
                    lemma_too_large_push(av, parts@[j as int]@);
                }
            }
            j += 1;
        }
        assert(line_scan(line@, names0) == Ok::<(Seq<(GroupType, Set<Label>)>, Seq<Seq<char>>), PartError>((acc, names_view(mapping@))));
        assert(tv.subrange(0, tv.len() as int) =~= tv);
        if too_large {
            proof {
                assert forall|ps: Seq<PartV>| #[trigger] parts_match(ps, acc) implies line_too_large(ps) by {
                    lemma_parts_match_unique(ps, parts_view(parts@), acc);
                }
            }
            return Err("Line too large");
        }
        let ghost ps = parts_view(parts@);
        let mut l = Line { parts };
        assert(l.wf()) by {
            assert forall|k: int| 0 <= k < ps.len() implies strictly_sorted(#[trigger] ps[k].1) by {
            }
        }
        l.normalize();
        assert(parts_match(ps, acc));
        assert(!line_too_large(ps));
        assert(normalized_from(l@, ps));
        assert(exists|ps: Seq<PartV>| #[trigger] parts_match(ps, acc) && !line_too_large(ps) && normalized_from(l@, ps));
        assert(l.wf());
        assert(line_scan(line@, names_view(old(mapping)@)) is Ok);
        assert(line_scan(line@, names_view(old(mapping)@))->Ok_0.0 == acc);
        Ok(l)
    }
}

/// A line stays too large when a part is added.
proof fn lemma_too_large_push(ps: Seq<PartV>, p: PartV)
    requires
        line_too_large(ps),
    ensures
        line_too_large(ps.push(p)),
{
    assert(ps.push(p).drop_last() =~= ps);
}

} // verus!
