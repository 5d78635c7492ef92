use vstd::prelude::*;

use crate::coloring::coloring_computed;
use crate::edit::{edited_lines, EditOp};
use crate::group::Label;
use crate::lines_trivial::passive_gen_computed;
use crate::line::Degree;
use crate::orientation::{allowed_splits, label_pairs_view, splits_complete, splits_ok};
use crate::problem::{label_texts_view, Problem};
use crate::renaming::{generator_names, generators_list, opt_pairs_view, rename_result};
use crate::sorting::{sets_view, LabelSetV};

verus! {

/// A step of an automatic search, with the problem it led to.
pub enum AutoOperation {
    Initial,
    Harden(Vec<Label>),
    Merge(Vec<(Label, Label)>, Problem),
    LogstarDup(Vec<Label>, Problem),
    LogstarSee(Vec<Label>, Problem),
    LogstarMIS(Vec<Label>, Problem),
    Speedup,
}

/// A request to the round elimination service.
pub enum Request {
    NewProblem(String, String),
    SimplifyMerge(Problem, Label, Label),
    SimplifyMergeGroup(Problem, Vec<Label>, Label),
    SimplifyAddarrow(Problem, Label, Label),
    SimplifySD(Problem, String, bool),
    HardenRemove(Problem, Label, bool),
    HardenKeep(Problem, Vec<Label>, bool),
    Speedup(Problem),
    FixpointBasic(Problem, bool, bool, Vec<Label>),
    FixpointLoop(Problem, bool, bool, Vec<Label>),
    FixpointCustom(Problem, String, bool, bool, Vec<Label>),
    FixpointDup(Problem, Vec<Vec<Label>>, bool, bool, Vec<Label>, bool),
    FixpointAddarrow(Problem),
    InverseSpeedup(Problem),
    AllDifferentLabels(Problem),
    DeltaEdgeColoring(Problem),
    SpeedupMaximize(Problem),
    SpeedupMaximizeRenamegen(Problem),
    FullDiagram(Problem),
    Maximize(Problem),
    MergeEquivalentLabels(Problem),
    RenameGenerators(Problem),
    Rename(Problem, Vec<(Label, String)>),
    Orientation(Problem, usize),
    DefaultDiagram(Problem, bool, bool, Vec<Label>, bool),
    AutoUb(Problem, bool, usize, bool, usize, bool, usize, bool, usize, bool, usize),
    AutoLb(Problem, bool, usize, bool, usize, bool, usize, bool, usize, bool, usize),
    ColoringSolvability(Problem),
    Marks(Problem),
    CriticalHarden(Problem, bool, usize, bool, usize, usize, bool, bool),
    CriticalRelax(Problem, bool, usize, bool, usize, usize, bool),
    Demisifiable(Problem, bool),
    AddActivePredecessors(Problem, bool),
    RemoveTrivialLines(Problem),
    CheckZeroWithInput(Problem, String, String, bool, bool, bool),
    Dual(Problem, String, String),
    DoubleDual(Problem, String, String),
    DoubleDual2(Problem, String, String, String, String, String),
    SmallestDual(Problem, String, String),
    LogstarDup(Problem, Vec<Label>),
    LogstarSee(Problem, Vec<Label>),
    LogstarMIS(Problem, Vec<Label>),
    AutoLogstar(Problem, usize, usize, String, String, usize, usize, bool),
    Ping,
}

/// An answer of the round elimination service.
pub enum Response {
    Done,
    Pong,
    Event(String, usize, usize),
    P(Problem),
    E(String),
    W(String),
    AutoUb(usize, Vec<(AutoOperation, Problem)>),
    AutoLb(usize, Vec<(AutoOperation, Problem)>),
    Logstar(usize, Vec<(AutoOperation, Problem)>),
}

/// The requests that `respond` answers: those whose work this library does.
pub open spec fn answered(req: Request) -> bool {
    ||| req is Ping
    ||| req is Rename
    ||| req is RenameGenerators
    ||| req is Orientation
    ||| req is ColoringSolvability
    ||| req matches Request::AddActivePredecessors(_, flip) && !flip
    ||| req matches Request::InverseSpeedup(p) && p.active.degree == Degree::Star
    ||| req matches Request::AllDifferentLabels(p) && p.active.degree == Degree::Star
    ||| req matches Request::DeltaEdgeColoring(p) && p.active.degree == Degree::Star
}

/// What the service needs of a request to answer it without failing.
pub open spec fn request_ok(req: Request) -> bool {
    match req {
        Request::RenameGenerators(p) => {
            &&& p.mapping_label_oldlabels is Some
            &&& p.mapping_oldlabel_text is Some
            &&& forall|i: int, j: int| 0 <= i < p.mapping_label_oldlabels->Some_0@.len()
                && 0 <= j < p.mapping_label_oldlabels->Some_0@[i].1@.len()
                ==> crate::renaming::named_labels(label_texts_view(p.mapping_oldlabel_text->Some_0@)).contains(
                    #[trigger] p.mapping_label_oldlabels->Some_0@[i].1@[j])
        },
        Request::Orientation(p, o) => {
            &&& p.active.wf()
            &&& p.passive.wf()
            &&& o <= 255
            &&& (p.passive.degree == Degree::Finite(2) || p.active.degree == Degree::Finite(2)) ==> p.passive.degree == Degree::Finite(2)
        },
        Request::AddActivePredecessors(p, flip) => {
            !flip ==> p.active.wf() && p.diagram_indirect is Some
        },
        Request::ColoringSolvability(p) => {
            &&& p.active.wf()
            &&& p.passive.wf()
            &&& p.passive.degree == Degree::Finite(2)
            &&& p.coloring_sets is None
            &&& p.diagram_indirect is Some
        },
        _ => true,
    }
}

/// The answer to a request for the coloring sets of `p`: the problem with
/// them computed, and then its generator lines of the passive side.
pub open spec fn coloring_answer(p: Problem, a: Response) -> bool {
    a matches Response::P(q) && exists|mid: Problem| #[trigger] coloring_computed(p, mid) && passive_gen_computed(mid, q)
}

/// The answer to a request to add, on the active side, the predecessors of
/// each label: the problem with only its active side changed so.
pub open spec fn predecessors_answer(p: Problem, a: Response) -> bool {
    a matches Response::P(q) && q == (Problem { active: q.active, ..p }) && q.active.wf()
        && q.active.degree == p.active.degree
        && exists|pairs: Vec<(Label, Label)>| #[trigger] pairs@ == p.diagram_indirect->Some_0@
            && edited_lines(EditOp::AddPredecessors { pairs }, p.active@, q.active@)
}

/// A single answer, the error `msg`.
pub open spec fn error_answer(r: Option<Vec<Response>>, msg: Seq<char>) -> bool {
    &&& r is Some
    &&& r->Some_0@.len() == 1
    &&& r->Some_0@[0] matches Response::E(s) && s@ == msg
}

/// The answer to renaming `p` by `v`: the renamed problem, or the error.
pub open spec fn rename_answer(p: Problem, v: Seq<(Label, Seq<char>)>, a: Response) -> bool {
    match rename_result(label_texts_view(p.mapping_label_text@), v) {
        Ok(names) => a matches Response::P(q) && label_texts_view(q.mapping_label_text@) == names
            && q == (Problem { mapping_label_text: q.mapping_label_text, ..p }),
        Err(e) => a matches Response::E(s) && s@ == e,
    }
}

/// The answer to renaming `p` by the generators of its labels.
pub open spec fn generators_answer(p: Problem, a: Response) -> bool {
    exists|gs: Seq<LabelSetV>| #[trigger] generators_list(opt_pairs_view(p.diagram_indirect_old), sets_view(p.mapping_label_oldlabels->Some_0@), gs)
        && rename_answer(p, generator_names(crate::problem::names_map(p.mapping_oldlabel_text->Some_0@), gs), a)
}

/// The answer to giving `p` the orientation of outdegree `o`: the problem with
/// the orientation recorded, its coloring sets cleared, and its trivial sets
/// computed when a side has degree two.
pub open spec fn orientation_answer(p: Problem, o: usize, a: Response) -> bool {
    a matches Response::P(q)
        && q == (Problem { orientation_given: Some(o), orientation_coloring_sets: None, orientation_trivial_sets: q.orientation_trivial_sets, ..p })
        && if p.passive.degree == Degree::Finite(2) || p.active.degree == Degree::Finite(2) {
            q.orientation_trivial_sets matches Some(v) && exists|sp: Seq<(Seq<Label>, Seq<Label>)>|
                #[trigger] splits_ok(sp, p.active@, o)
                && splits_complete(sp, p.active@, o)
                && label_pairs_view(v@) == allowed_splits(p.passive, sp)
        } else {
            q.orientation_trivial_sets is None
        }
}

/// The answers to a request, for the requests whose work this library does;
/// `None` for the others, which need operations outside it.
pub fn respond(req: Request) -> (r: Option<Vec<Response>>)
    requires
        request_ok(req),
    ensures
        r is Some <==> answered(req),
        req is Ping ==> r is Some && r->Some_0@.len() == 1 && r->Some_0@[0] is Pong,
        req matches Request::Rename(p, v) ==> r is Some && r->Some_0@.len() == 1
            && rename_answer(p, label_texts_view(v@), r->Some_0@[0]),
        req matches Request::RenameGenerators(p) ==> r is Some && r->Some_0@.len() == 1
            && generators_answer(p, r->Some_0@[0]),
        req matches Request::Orientation(p, o) ==> r is Some && r->Some_0@.len() == 1
            && orientation_answer(p, o, r->Some_0@[0]),
        req matches Request::ColoringSolvability(p) ==> r is Some && r->Some_0@.len() == 1
            && coloring_answer(p, r->Some_0@[0]),
        req matches Request::AddActivePredecessors(p, flip) ==> (!flip ==> r is Some && r->Some_0@.len() == 1
            && predecessors_answer(p, r->Some_0@[0])),
        req matches Request::InverseSpeedup(p) ==> (p.active.degree == Degree::Star
            ==> error_answer(r, "Cannot perform inverse speedup if the active side contains a star."@)),
        req matches Request::AllDifferentLabels(p) ==> (p.active.degree == Degree::Star
            ==> error_answer(r, "Cannot perform this operation if the active side contains a star."@)),
        req matches Request::DeltaEdgeColoring(p) ==> (p.active.degree == Degree::Star
            ==> error_answer(r, "Cannot perform this operation if the active side contains a star."@)),
{
    match req {
        Request::Ping => Some(vec![Response::Pong]),
        Request::Rename(mut p, v) => {
            let ghost p0 = p;
            let rr = p.rename(&v);
            let a = match rr {
                Ok(()) => Response::P(p),
                Err(s) => Response::E(s.to_owned()),
            };
            Some(vec![a])
        },
        Request::RenameGenerators(mut p) => {
            let ghost p0 = p;
            let rr = p.rename_by_generators();
            proof {
                let m = crate::problem::names_map(p0.mapping_oldlabel_text->Some_0@);
                let gs = choose|gs: Seq<LabelSetV>| {
                    let res = rename_result(label_texts_view(p0.mapping_label_text@), generator_names(m, gs));
                    &&& #[trigger] generators_list(opt_pairs_view(p0.diagram_indirect_old), sets_view(p0.mapping_label_oldlabels->Some_0@), gs)
                    &&& (rr is Ok <==> res is Ok)
                    &&& (rr is Err ==> rr->Err_0@ == res->Err_0)
                    &&& (rr is Ok ==> label_texts_view(p.mapping_label_text@) == res->Ok_0)
                };
                assert(generators_list(opt_pairs_view(p0.diagram_indirect_old), sets_view(p0.mapping_label_oldlabels->Some_0@), gs));
            }
            let a = match rr {
                Ok(()) => Response::P(p),
                Err(s) => Response::E(s.to_owned()),
            };
            proof {
                let m = crate::problem::names_map(p0.mapping_oldlabel_text->Some_0@);
                let gs = choose|gs: Seq<LabelSetV>| {
                    let res = rename_result(label_texts_view(p0.mapping_label_text@), generator_names(m, gs));
                    &&& #[trigger] generators_list(opt_pairs_view(p0.diagram_indirect_old), sets_view(p0.mapping_label_oldlabels->Some_0@), gs)
                    &&& (rr is Ok <==> res is Ok)
                    &&& (rr is Err ==> rr->Err_0@ == res->Err_0)
                    &&& (rr is Ok ==> label_texts_view(p.mapping_label_text@) == res->Ok_0)
                };
                assert(rename_answer(p0, generator_names(m, gs), a));
                assert(generators_answer(p0, a));
            }
            Some(vec![a])
        },
        Request::Orientation(mut p, o) => {
            p.orientation_given = Some(o);
            p.orientation_coloring_sets = None;
            p.orientation_trivial_sets = None;
            if p.passive.degree == Degree::Finite(2) || p.active.degree == Degree::Finite(2) {
                p.compute_triviality_given_orientation(o);
            }
            Some(vec![Response::P(p)])
        },
        Request::ColoringSolvability(mut p) => {
            let ghost p0 = p;
            p.compute_coloring_solvability();
            let ghost mid = p;
            p.compute_passive_gen();
            proof {
                assert(coloring_computed(p0, mid));
            }
            Some(vec![Response::P(p)])
        },
        Request::AddActivePredecessors(mut p, flip) => {
            if flip {
                None
            } else {
                p.add_active_predecessors();
                Some(vec![Response::P(p)])
            }
        },
        Request::InverseSpeedup(p) => {
            if p.active.degree == Degree::Star {
                let s = "Cannot perform inverse speedup if the active side contains a star.";
                Some(vec![Response::E(s.to_owned())])
            } else {
                None
            }
        },
        Request::AllDifferentLabels(p) | Request::DeltaEdgeColoring(p) => {
            if p.active.degree == Degree::Star {
                let s = "Cannot perform this operation if the active side contains a star.";
                Some(vec![Response::E(s.to_owned())])
            } else {
                None
            }
        },
        _ => None,
    }
}

} // verus!
