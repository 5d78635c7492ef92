use vstd::prelude::*;
use std::collections::HashMap;

use crate::group::{copy_labels, strictly_sorted, sorted_unique, Group, GroupType, Label};
use crate::text::{decimal, decimal_string, parse_u8, parse_u8_spec, push_char, push_str, str_to_chars, string_from_chars};

verus! {

broadcast use vstd::std_specs::hash::group_hash_axioms;

/// A group of labels together with the number of times it occurs.
#[derive(Clone, Debug, Eq, PartialEq, PartialOrd, Ord, Hash)]
pub struct Part {
    pub gtype: GroupType,
    pub group: Group,
}

impl View for Part {
    type V = (GroupType, Seq<Label>);

    open spec fn view(&self) -> (GroupType, Seq<Label>) {
        (self.gtype, self.group@)
    }
}

impl Part {
    pub open spec fn wf(&self) -> bool {
        self.group.wf()
    }

    /// An equal copy of the part.
    pub fn duplicate(&self) -> (r: Part)
        ensures
            r@ == self@,
    {
        Part { gtype: self.gtype, group: self.group.duplicate() }
    }
}

/// The text of the labels of `g`, one after the other, as `m` names them.
pub open spec fn labels_text(m: Map<Label, String>, g: Seq<Label>) -> Seq<char>
    decreases g.len(),
{
    if g.len() == 0 {
        Seq::empty()
    } else {
        labels_text(m, g.drop_last()) + m[g.last()]@
    }
}

/// How a number of occurrences is written: nothing for one, `^n` for `n`,
/// `*` for any number.
pub open spec fn gtype_text(t: GroupType) -> Seq<char> {
    match t {
        GroupType::Many(n) => if n == 1 { Seq::empty() } else { seq!['^'] + decimal(n as nat) },
        GroupType::Star => seq!['*'],
    }
}

/// How a part is written: its labels (`∅` for none), then its number of
/// occurrences.
pub open spec fn part_text(m: Map<Label, String>, p: (GroupType, Seq<Label>)) -> Seq<char> {
    (if labels_text(m, p.1).len() == 0 { seq!['∅'] } else { labels_text(m, p.1) }) + gtype_text(p.0)
}

/// `m` names every label of `g`.
pub open spec fn names_all(m: Map<Label, String>, g: Seq<Label>) -> bool {
    forall|i: int| 0 <= i < g.len() ==> m.contains_key(#[trigger] g[i])
}

/// Writes how many times a group occurs.
pub fn gtype_to_string(t: GroupType) -> (r: String)
    ensures
        r@ == gtype_text(t),
{
    let mut s = String::new();
    match t {
        GroupType::Many(n) => {
            if n != 1 {
                push_char(&mut s, '^');
                let d = decimal_string(n as u64);
                push_str(&mut s, d.as_str());
                assert(s@ =~= gtype_text(t));
            }
        },
        GroupType::Star => {
            push_char(&mut s, '*');
            assert(s@ =~= gtype_text(t));
        },
    }
    s
}

/// Appends the text of the labels of `g` to `s`.
pub fn push_labels_text(s: &mut String, m: &HashMap<Label, String>, g: &Group)
    requires
        names_all(m@, g@),
    ensures
        final(s)@ == old(s)@ + labels_text(m@, g@),
{
    let ghost start = s@;
    let mut i: usize = 0;
    while i < g.0.len()
        invariant
            i <= g@.len(),
            names_all(m@, g@),
            s@ == start + labels_text(m@, g@.subrange(0, i as int)),
        decreases g@.len() - i,
    {
        let l = g.0[i];
        assert(m@.contains_key(g@[i as int]));
        match m.get(&l) {
            Some(t) => {
                push_str(s, t.as_str());
            },
            None => {},
        }
        proof {
            assert(g@.subrange(0, i + 1).drop_last() =~= g@.subrange(0, i as int));
            assert(g@.subrange(0, i + 1).last() == l);
        }
        i += 1;
        assert(s@ =~= start + labels_text(m@, g@.subrange(0, i as int)));
    }
    assert(g@.subrange(0, g@.len() as int) =~= g@);
}

/// The names of the labels of `g` followed by a space, `k` times over.
pub open spec fn repeated_text(m: Map<Label, String>, g: Seq<Label>, k: nat) -> Seq<char>
    decreases k,
{
    if k == 0 {
        Seq::empty()
    } else {
        repeated_text(m, g, (k - 1) as nat) + labels_text(m, g) + seq![' ']
    }
}

impl Part {
    /// Writes the names of the labels of the group, followed by a space, once
    /// per occurrence of a part that does not carry a star.
    pub fn _to_string(&self, mapping: &HashMap<Label, String>) -> (r: String)
        requires
            self.gtype is Many,
            names_all(mapping@, self.group@),
        ensures
            r@ == repeated_text(mapping@, self.group@, self.gtype->Many_0 as nat),
    {
        let mut s = String::new();
        let deg = self.gtype.value();
        let mut k: usize = 0;
        assert(s@ =~= repeated_text(mapping@, self.group@, 0));
        while k < deg
            invariant
                k <= deg,
                names_all(mapping@, self.group@),
                s@ == repeated_text(mapping@, self.group@, k as nat),
            decreases deg - k,
        {
            push_labels_text(&mut s, mapping, &self.group);
            push_char(&mut s, ' ');
            k += 1;
            assert(s@ =~= repeated_text(mapping@, self.group@, k as nat));
        }
        s
    }

    /// Writes the part with the label names of `mapping`.
    pub fn to_string(&self, mapping: &HashMap<Label, String>) -> (r: String)
        requires
            names_all(mapping@, self.group@),
        ensures
            r@ == part_text(mapping@, self@),
    {
        let mut s = String::new();
        push_labels_text(&mut s, mapping, &self.group);
        if s.as_str().is_empty() {
            push_char(&mut s, '∅');
        }
        let t = gtype_to_string(self.gtype);
        push_str(&mut s, t.as_str());
        assert(s@ =~= part_text(mapping@, self@));
        s
    }
}


/// Why a part could not be read.
#[derive(Copy, Clone, Debug, Eq, PartialEq, Structural)]
pub enum PartError {
    CloseOutside,
    OpenInside,
    CaretInside,
    StarInside,
    EmptyLabel,
    InvalidNumber,
    AfterStar,
    MissingClose,
}

/// The message that reports each error.
pub open spec fn part_error_text(e: PartError) -> Seq<char> {
    match e {
        PartError::CloseOutside => "')' not allowed in a label"@,
        PartError::OpenInside => "'(' not allowed in a label"@,
        PartError::CaretInside => "'^' not allowed in a label"@,
        PartError::StarInside => "'*' not allowed in a label"@,
        PartError::EmptyLabel => "Empty label not allowed"@,
        PartError::InvalidNumber => "Invalid number"@,
        PartError::AfterStar => "Something after the star"@,
        PartError::MissingClose => "Missing ')'"@,
    }
}

/// The message that reports each error.
pub fn part_error_message(e: PartError) -> (r: &'static str)
    ensures
        r@ == part_error_text(e),
{
    match e {
        PartError::CloseOutside => "')' not allowed in a label",
        PartError::OpenInside => "'(' not allowed in a label",
        PartError::CaretInside => "'^' not allowed in a label",
        PartError::StarInside => "'*' not allowed in a label",
        PartError::EmptyLabel => "Empty label not allowed",
        PartError::InvalidNumber => "Invalid number",
        PartError::AfterStar => "Something after the star",
        PartError::MissingClose => "Missing ')'",
    }
}

/// The state of the reader of a part: whether it is inside parentheses, the
/// text of the label being read there, the labels read so far, the names of
/// all labels known so far (label `i` is named `names[i]`), and the number of
/// occurrences.
pub struct ScanState {
    pub inside: bool,
    pub current: Seq<char>,
    pub group: Seq<Label>,
    pub names: Seq<Seq<char>>,
    pub gtype: GroupType,
}

/// `k` is the first position of `t` in `names`.
pub open spec fn first_position(names: Seq<Seq<char>>, t: Seq<char>, k: int) -> bool {
    &&& 0 <= k < names.len()
    &&& names[k] == t
    &&& forall|j: int| 0 <= j < k ==> names[j] != t
}

/// The label named `t`, and the names after it is known: an existing label
/// keeps its number; a new one gets the next number.
pub open spec fn label_for(names: Seq<Seq<char>>, t: Seq<char>) -> (Label, Seq<Seq<char>>) {
    if names.contains(t) {
        ((choose|k: int| first_position(names, t, k)) as Label, names)
    } else {
        (names.len() as Label, names.push(t))
    }
}

/// Reads label text `t` into the state.
pub open spec fn add_label(st: ScanState, t: Seq<char>) -> ScanState {
    let (l, names) = label_for(st.names, t);
    ScanState { inside: false, current: Seq::empty(), group: st.group.push(l), names, gtype: st.gtype }
}

/// Reads the characters `cs[i..]` of a part. Outside parentheses every
/// character is a label, `(` opens a label of several characters, `*` ends
/// the part with a star, and `^` is followed by the number of occurrences.
pub open spec fn scan(cs: Seq<char>, i: int, st: ScanState) -> Result<ScanState, PartError>
    decreases cs.len() - i,
{
    if i >= cs.len() {
        if st.inside { Err(PartError::MissingClose) } else { Ok(st) }
    } else {
        let c = cs[i];
        if !st.inside {
            if c == '(' {
                scan(cs, i + 1, ScanState { inside: true, current: seq!['('], ..st })
            } else if c == ')' {
                Err(PartError::CloseOutside)
            } else if c == '*' {
                if i + 1 < cs.len() { Err(PartError::AfterStar) } else { Ok(ScanState { gtype: GroupType::Star, ..st }) }
            } else if c == '^' {
                match parse_u8_spec(cs.subrange(i + 1, cs.len() as int)) {
                    Some(n) => Ok(ScanState { gtype: GroupType::Many(n), ..st }),
                    None => Err(PartError::InvalidNumber),
                }
            } else {
                scan(cs, i + 1, add_label(st, seq![c]))
            }
        } else {
            if c == '(' {
                Err(PartError::OpenInside)
            } else if c == '^' {
                Err(PartError::CaretInside)
            } else if c == '*' {
                Err(PartError::StarInside)
            } else if c == ')' {
                if st.current.len() == 1 {
                    Err(PartError::EmptyLabel)
                } else {
                    scan(cs, i + 1, add_label(st, st.current.push(')')))
                }
            } else {
                scan(cs, i + 1, ScanState { current: st.current.push(c), ..st })
            }
        }
    }
}

/// The names of a list of label names.
pub open spec fn names_view(v: Seq<String>) -> Seq<Seq<char>> {
    v.map_values(|s: String| s@)
}

/// What reading the text `cs` of a part yields, given the names known so far.
pub open spec fn part_scan(cs: Seq<char>, names: Seq<Seq<char>>) -> Result<ScanState, PartError> {
    scan(cs, 0, ScanState { inside: false, current: Seq::empty(), group: Seq::empty(), names, gtype: GroupType::Many(1) })
}

/// The label named `t` in `mapping`; a new name is added at the end.
fn label_of_text(mapping: &mut Vec<String>, t: &Vec<char>) -> (l: Label)
    requires
        old(mapping)@.len() < u32::MAX,
    ensures
        (l, names_view(final(mapping)@)) == label_for(names_view(old(mapping)@), t@),
{
    let ghost names = names_view(mapping@);
    let text = string_from_chars(t);
    let mut k: usize = 0;
    while k < mapping.len()
        invariant
            k <= mapping@.len(),
            names == names_view(mapping@),
            mapping@.len() < u32::MAX,
            text@ == t@,
            forall|j: int| 0 <= j < k ==> names[j] != t@,
        decreases mapping@.len() - k,
    {
        if mapping[k] == text {
            proof {
                assert(first_position(names, t@, k as int));
                assert(names.contains(t@)) by { assert(names[k as int] == t@); }
                let c = choose|c: int| first_position(names, t@, c);
                if c < k {
                    assert(names[c] != t@);
                } else if c > k {
                    assert(names[k as int] != t@);
                }
            }
            return k as Label;
        }
        k += 1;
    }
    let l = mapping.len() as Label;
    mapping.push(text);
    proof {
        assert(!names.contains(t@)) by {
            if names.contains(t@) {
                let j = choose|j: int| 0 <= j < names.len() && names[j] == t@;
                assert(names[j] != t@);
            }
        }
        assert(names_view(mapping@) =~= names.push(t@));
    }
    l
}

impl Part {
    /// Reads a part, such as `AB`, `A(BC)^3` or `AB*`, naming new labels in
    /// `mapping` (label `i` is named `mapping[i]`). The labels of the group are
    /// sorted, each kept once.
    pub fn parse(part: &str, mapping: &mut Vec<String>) -> (r: Result<Part, &'static str>)
        requires
            old(mapping)@.len() + part@.len() < u32::MAX,
        ensures
            match part_scan(part@, names_view(old(mapping)@)) {
                Ok(st) => r matches Ok(p) && p.wf() && p.group.labels() == st.group.to_set()
                    && p.gtype == st.gtype && names_view(final(mapping)@) == st.names,
                Err(e) => r matches Err(m) && m@ == part_error_text(e),
            },
            final(mapping)@.len() <= old(mapping)@.len() + part@.len(),
    {
        let cs = str_to_chars(part);
        let ghost names0 = names_view(mapping@);
        let ghost start = ScanState { inside: false, current: Seq::empty(), group: Seq::empty(), names: names0, gtype: GroupType::Many(1) };
        let mut inside = false;
        let mut current: Vec<char> = Vec::new();
        let mut group: Vec<Label> = Vec::new();
        let mut gtype = GroupType::Many(1);
        let mut i: usize = 0;
        while i < cs.len()
            invariant
                cs@ == part@,
                names0 == names_view(old(mapping)@),
                !inside ==> current@ == Seq::<char>::empty(),
                i <= cs@.len(),
                mapping@.len() <= old(mapping)@.len() + i,
                old(mapping)@.len() + part@.len() < u32::MAX,
                part_scan(cs@, names0) == scan(cs@, i as int, ScanState { inside, current: current@, group: group@, names: names_view(mapping@), gtype }),
            decreases cs@.len() - i,
        {
            let c = cs[i];
            let ghost st = ScanState { inside, current: current@, group: group@, names: names_view(mapping@), gtype };
            if !inside {
                if c == '(' {
                    current = Vec::new();
                    current.push('(');
                    inside = true;
                    assert(current@ =~= seq!['(']);
                } else if c == ')' {
                    assert(scan(cs@, i as int, st) == Err::<ScanState, PartError>(PartError::CloseOutside));
                    return Err(part_error_message(PartError::CloseOutside));
                } else if c == '*' {
                    if i + 1 < cs.len() {
                        return Err(part_error_message(PartError::AfterStar));
                    }
                    assert(scan(cs@, i as int, st) == Ok::<ScanState, PartError>(ScanState { gtype: GroupType::Star, ..st }));
                    return Ok(Part { gtype: GroupType::Star, group: Group(sorted_unique(&group)) });
                } else if c == '^' {
                    match parse_u8(&cs, i + 1) {
                        Some(n) => {
                            return Ok(Part { gtype: GroupType::Many(n), group: Group(sorted_unique(&group)) });
                        },
                        None => {
                            return Err(part_error_message(PartError::InvalidNumber));
                        },
                    }
                } else {
                    let mut t: Vec<char> = Vec::new();
                    t.push(c);
                    assert(t@ =~= seq![c]);
                    let l = label_of_text(mapping, &t);
                    group.push(l);
                }
            } else {
                if c == '(' {
                    return Err(part_error_message(PartError::OpenInside));
                } else if c == '^' {
                    return Err(part_error_message(PartError::CaretInside));
                } else if c == '*' {
                    return Err(part_error_message(PartError::StarInside));
                } else if c == ')' {
                    if current.len() == 1 {
                        return Err(part_error_message(PartError::EmptyLabel));
                    }
                    current.push(')');
                    let l = label_of_text(mapping, &current);
                    group.push(l);
                    current = Vec::new();
                    inside = false;
                    assert(current@ =~= Seq::<char>::empty());
                } else {
                    current.push(c);
                }
            }
            i += 1;
        }
        if inside {
            return Err(part_error_message(PartError::MissingClose));
        }
        Ok(Part { gtype, group: Group(sorted_unique(&group)) })
    }
}

} // verus!
