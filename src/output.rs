use vstd::prelude::*;
use crate::compile::{
    all_compiled, asset_view, assets_of, holds_name, lemma_pass_names_complete,
    lemma_pass_names_unique, names_unique, pass_over, source_names, Assets, CompiledAsset, Outcome,
    SourceEntry,
};
use crate::naming::{css_file_name, css_name, join_path, output_path};

verus! {

/// A file that writing a compile pass creates or truncates, and its
/// contents.
pub struct OutputFile {
    pub path: String,
    pub contents: String,
}

/// Files as (path, contents) pairs.
pub type Plan = Seq<(Seq<char>, Seq<char>)>;

pub open spec fn output_view(f: OutputFile) -> (Seq<char>, Seq<char>) {
    (f.path@, f.contents@)
}

/// The pairs that a list of output files holds.
pub open spec fn outputs_of(v: Seq<OutputFile>) -> Plan {
    v.map_values(|f: OutputFile| output_view(f))
}

/// The files written for `assets` into the directory `dir`: one per pair,
/// named by the base name's stem with the stylesheet extension.
pub open spec fn plan_of(dir: Seq<char>, assets: Assets) -> Plan {
    assets.map_values(|a: (Seq<char>, Seq<char>)| (join_path(dir, css_name(a.0)), a.1))
}

/// The file system as a map from path to contents, after writing `plan` in
/// order over `disk`.
pub open spec fn apply_plan(disk: Map<Seq<char>, Seq<char>>, plan: Plan) -> Map<Seq<char>, Seq<char>>
    decreases plan.len(),
{
    if plan.len() == 0 {
        disk
    } else {
        apply_plan(disk, plan.drop_last()).insert(plan.last().0, plan.last().1)
    }
}

/// The files to write for `assets` into the directory `dir`.
pub fn plan_outputs(dir: &str, assets: &Vec<CompiledAsset>) -> (r: Vec<OutputFile>)
    ensures
        outputs_of(r@) == plan_of(
            dir@,
            assets_of(assets@),
        ),
{
    let ghost target = plan_of(dir@, assets_of(assets@));
    let mut r: Vec<OutputFile> = Vec::new();
    let mut i: usize = 0;
    while i < assets.len()
        invariant
            i <= assets@.len(),
            target == plan_of(dir@, assets_of(assets@)),
            r@.len() == i,
            forall|j: int| 0 <= j < i ==> output_view(#[trigger] r@[j]) == target[j],
        decreases assets@.len() - i,
    {
        let file_name = css_file_name(assets[i].name.as_str());
        let path = output_path(dir, file_name.as_str());
        let contents = assets[i].css.clone();
        assert(assets_of(assets@)[i as int] == asset_view(assets@[i as int]));
        assert(target[i as int] == (path@, contents@));
        r.push(OutputFile { path, contents });
        i = i + 1;
    }
    assert(outputs_of(r@) =~= target);
    r
}

proof fn lemma_apply_as_union(disk: Map<Seq<char>, Seq<char>>, plan: Plan)
    ensures
        apply_plan(disk, plan) == disk.union_prefer_right(apply_plan(Map::empty(), plan)),
    decreases plan.len(),
{
    if plan.len() == 0 {
        assert(disk.union_prefer_right(Map::empty()) =~= disk);
    } else {
        lemma_apply_as_union(disk, plan.drop_last());
        let w = apply_plan(Map::empty(), plan.drop_last());
        assert(disk.union_prefer_right(w).insert(plan.last().0, plan.last().1) =~= disk.union_prefer_right(
            w.insert(plan.last().0, plan.last().1),
        ));
    }
}

proof fn lemma_apply_twice(disk: Map<Seq<char>, Seq<char>>, plan: Plan)
    ensures
        apply_plan(apply_plan(disk, plan), plan) == apply_plan(disk, plan),
{
    let w = apply_plan(Map::empty(), plan);
    lemma_apply_as_union(disk, plan);
    lemma_apply_as_union(apply_plan(disk, plan), plan);
    assert(disk.union_prefer_right(w).union_prefer_right(w) =~= disk.union_prefer_right(w));
}

/// A second compile-and-write pass over an unchanged source tree changes
/// nothing: the same walk and the same compiled texts give the same files,
/// and writing them over the first pass's output leaves the same bytes.
pub proof fn lemma_second_pass_changes_nothing(
    dir: Seq<char>,
    entries: Seq<SourceEntry>,
    outcomes: Seq<Outcome>,
    disk: Map<Seq<char>, Seq<char>>,
)
    ensures
        apply_plan(
            apply_plan(disk, plan_of(dir, pass_over(entries, outcomes).0)),
            plan_of(dir, pass_over(entries, outcomes).0),
        ) == apply_plan(disk, plan_of(dir, pass_over(entries, outcomes).0)),
{
    lemma_apply_twice(disk, plan_of(dir, pass_over(entries, outcomes).0));
}

/// One output file per distinct base name: where every source file
/// compiles, a pass holds each base name of the source files once and no
/// other name, and writes one file for each, named by its stem with the
/// stylesheet extension, into the output directory.
pub proof fn lemma_one_output_per_base_name(
    dir: Seq<char>,
    entries: Seq<SourceEntry>,
    outcomes: Seq<Outcome>,
)
    requires
        outcomes.len() == entries.len(),
        all_compiled(entries, outcomes, entries.len() as int),
    ensures
        pass_over(entries, outcomes).1 is None,
        names_unique(pass_over(entries, outcomes).0),
        forall|m: Seq<char>|
            holds_name(pass_over(entries, outcomes).0, m) <==> source_names(
                entries,
                entries.len() as int,
            ).contains(m),
        plan_of(dir, pass_over(entries, outcomes).0).len() == pass_over(entries, outcomes).0.len(),
        forall|i: int|
            0 <= i < pass_over(entries, outcomes).0.len() ==> #[trigger] plan_of(
                dir,
                pass_over(entries, outcomes).0,
            )[i] == (
                join_path(dir, css_name(pass_over(entries, outcomes).0[i].0)),
                pass_over(entries, outcomes).0[i].1,
            ),
{
    lemma_pass_names_unique(entries, outcomes, entries.len() as int);
    lemma_pass_names_complete(entries, outcomes, entries.len() as int);
}

} // verus!
