//! The decisions of a patching run, as a state machine: the caller performs
//! each action (reading the patch directory, running `patch`, reading and
//! writing files) and hands back what came of it.
use vstd::prelude::*;

use crate::digests::{checksum, digest_of};
use crate::patches::{
    find_patches, found_patches, patch_views, pkgbuild_patch_index, pkgbuild_patch_position,
    PatchDirEntry, PatchFile, PatchView,
};
use crate::pkgbuild::{
    all_summed, checksums, closed_after, file_names, lemma_update_succeeds, update_pkgbuild,
    updated_pkgbuild,
};
use crate::srcinfo::{
    find_algorithm, find_algorithm_in, lemma_algorithm_of_first_sums_line, srcinfo_values,
    srcinfo_values_of, sums_key, sums_line, HashAlgorithm,
};
use crate::text::{chars_of, hex_lower, lines_of, plain_lines, views};

verus! {

broadcast use vstd::string::group_string_axioms;

/// Where a patching run stands.
pub enum PatchStage {
    /// Nothing done yet.
    Start,
    /// Waiting for the entries of the package's patch directory.
    FindingPatches,
    /// Waiting for `patch` to have run on the PKGBUILD; the other patches.
    PatchingPkgbuild { patches: Vec<PatchFile> },
    /// Waiting for the contents of the patches.
    ReadingPatches { patches: Vec<PatchFile>, algorithm: HashAlgorithm },
    /// Waiting for the patches to be copied next to the PKGBUILD and for its
    /// text; the patches with their checksums and the `.SRCINFO` sources.
    CopyingPatches { patches: Vec<PatchFile>, algorithm: HashAlgorithm, sources: Vec<String> },
    /// Waiting for the new PKGBUILD to be written.
    Writing,
    /// The run is over.
    Finished,
}

/// What came of the last action.
pub enum PatchEvent {
    /// The run is to start.
    Begin,
    /// The files of the patch directory, or why it could not be read.
    DirectoryRead(Result<Vec<PatchDirEntry>, String>),
    /// `patch` ran on the PKGBUILD, successfully or not.
    PkgbuildPatchApplied,
    /// The contents of each patch, in order.
    PatchesRead(Vec<Vec<u8>>),
    /// The patches were copied; the PKGBUILD's text.
    PkgbuildRead(String),
    /// The new PKGBUILD was written.
    PkgbuildWritten,
}

/// Why a run stops as the program panics.
#[derive(Debug, Clone, Copy, PartialEq, Eq, Structural)]
pub enum AbortReason {
    /// The `.SRCINFO` sources could not be read out.
    SourceValues,
    /// The `.SRCINFO` checksums could not be read out.
    ChecksumValues,
    /// An array of the PKGBUILD could not be replaced.
    PkgbuildArray,
}

/// What the caller is to do next.
pub enum PatchAction {
    /// Read the entries of the package's patch directory.
    ReadPatchDirectory,
    /// Run `patch -i <path>` on the PKGBUILD.
    ApplyPkgbuildPatch(String),
    /// Read the contents of these patches.
    ReadPatches(Vec<String>),
    /// Copy these patches next to the PKGBUILD, then read the PKGBUILD.
    CopyPatchesAndReadPkgbuild(Vec<String>),
    /// Write this text over the PKGBUILD.
    WritePkgbuild(String),
    /// The run is over, with this result.
    Finish(Result<String, String>),
    /// Stop the program.
    Abort(AbortReason),
}

pub enum StageView {
    Start,
    FindingPatches,
    PatchingPkgbuild(Seq<PatchView>),
    ReadingPatches(Seq<PatchView>, HashAlgorithm),
    CopyingPatches(Seq<PatchView>, HashAlgorithm, Seq<Seq<char>>),
    Writing,
    Finished,
}

pub enum EventView {
    Begin,
    DirectoryRead(Result<Seq<PatchDirEntry>, Seq<char>>),
    PkgbuildPatchApplied,
    PatchesRead(Seq<Seq<u8>>),
    PkgbuildRead(Seq<char>),
    PkgbuildWritten,
}

pub enum ActionView {
    ReadPatchDirectory,
    ApplyPkgbuildPatch(Seq<char>),
    ReadPatches(Seq<Seq<char>>),
    CopyPatchesAndReadPkgbuild(Seq<Seq<char>>),
    WritePkgbuild(Seq<char>),
    Finish(Result<Seq<char>, Seq<char>>),
    Abort(AbortReason),
}

impl View for PatchStage {
    type V = StageView;

    open spec fn view(&self) -> StageView {
        match self {
            PatchStage::Start => StageView::Start,
            PatchStage::FindingPatches => StageView::FindingPatches,
            PatchStage::PatchingPkgbuild { patches } => StageView::PatchingPkgbuild(
                patch_views(patches@),
            ),
            PatchStage::ReadingPatches { patches, algorithm } => StageView::ReadingPatches(
                patch_views(patches@),
                *algorithm,
            ),
            PatchStage::CopyingPatches { patches, algorithm, sources } => StageView::CopyingPatches(
                patch_views(patches@),
                *algorithm,
                views(sources@),
            ),
            PatchStage::Writing => StageView::Writing,
            PatchStage::Finished => StageView::Finished,
        }
    }
}

impl View for PatchEvent {
    type V = EventView;

    open spec fn view(&self) -> EventView {
        match self {
            PatchEvent::Begin => EventView::Begin,
            PatchEvent::DirectoryRead(r) => EventView::DirectoryRead(
                match r {
                    Ok(entries) => Ok(entries@),
                    Err(e) => Err(e@),
                },
            ),
            PatchEvent::PkgbuildPatchApplied => EventView::PkgbuildPatchApplied,
            PatchEvent::PatchesRead(contents) => EventView::PatchesRead(
                contents@.map_values(|c: Vec<u8>| c@),
            ),
            PatchEvent::PkgbuildRead(t) => EventView::PkgbuildRead(t@),
            PatchEvent::PkgbuildWritten => EventView::PkgbuildWritten,
        }
    }
}

impl View for PatchAction {
    type V = ActionView;

    open spec fn view(&self) -> ActionView {
        match self {
            PatchAction::ReadPatchDirectory => ActionView::ReadPatchDirectory,
            PatchAction::ApplyPkgbuildPatch(p) => ActionView::ApplyPkgbuildPatch(p@),
            PatchAction::ReadPatches(ps) => ActionView::ReadPatches(views(ps@)),
            PatchAction::CopyPatchesAndReadPkgbuild(ps) => ActionView::CopyPatchesAndReadPkgbuild(
                views(ps@),
            ),
            PatchAction::WritePkgbuild(t) => ActionView::WritePkgbuild(t@),
            PatchAction::Finish(r) => ActionView::Finish(
                match r {
                    Ok(s) => Ok(s@),
                    Err(e) => Err(e@),
                },
            ),
            PatchAction::Abort(r) => ActionView::Abort(*r),
        }
    }
}

/// The event is the one that the stage waits for.
pub open spec fn fits(stage: StageView, event: EventView) -> bool {
    match (stage, event) {
        (StageView::Start, EventView::Begin) => true,
        (StageView::FindingPatches, EventView::DirectoryRead(_)) => true,
        (StageView::PatchingPkgbuild(_), EventView::PkgbuildPatchApplied) => true,
        (StageView::ReadingPatches(ps, _), EventView::PatchesRead(c)) => c.len() == ps.len(),
        (StageView::CopyingPatches(ps, _, _), EventView::PkgbuildRead(_)) => all_summed(ps),
        (StageView::Writing, EventView::PkgbuildWritten) => true,
        _ => false,
    }
}

/// The paths of patches.
pub open spec fn paths(ps: Seq<PatchView>) -> Seq<Seq<char>> {
    ps.map_values(|p: PatchView| p.path)
}

/// The patches with the checksums of their contents under `a`.
pub open spec fn with_checksums(ps: Seq<PatchView>, a: HashAlgorithm, contents: Seq<Seq<u8>>) -> Seq<
    PatchView,
> {
    Seq::new(
        ps.len(),
        |i: int|
            PatchView {
                name: ps[i].name,
                path: ps[i].path,
                file_name: ps[i].file_name,
                checksum: Some(hex_lower(digest_of(a, contents[i]))),
            },
    )
}

/// The result of a run that completes.
pub open spec fn worked() -> Seq<char> {
    "worked"@
}

/// What follows once the PKGBUILD patch is dealt with: with no patches left
/// the run is over; else the algorithm of the `.SRCINFO` is needed, and the
/// patches are read.
pub open spec fn after_pkgbuild_patch(ps: Seq<PatchView>, srcinfo: Seq<char>) -> (
    StageView,
    ActionView,
) {
    if ps.len() == 0 {
        (StageView::Finished, ActionView::Finish(Ok(worked())))
    } else {
        match find_algorithm_in(lines_of(srcinfo)) {
            None => (StageView::Finished, ActionView::Finish(Err("No algorithm found"@))),
            Some(a) => (StageView::ReadingPatches(ps, a), ActionView::ReadPatches(paths(ps))),
        }
    }
}

/// One step of a patching run: from a stage, the `.SRCINFO` text and what
/// came of the last action, the next stage and action.
pub open spec fn next_step(stage: StageView, srcinfo: Seq<char>, event: EventView) -> (
    StageView,
    ActionView,
) {
    match (stage, event) {
        (StageView::Start, EventView::Begin) => (
            StageView::FindingPatches,
            ActionView::ReadPatchDirectory,
        ),
        (StageView::FindingPatches, EventView::DirectoryRead(Err(e))) => (
            StageView::Finished,
            ActionView::Finish(Err(e)),
        ),
        (StageView::FindingPatches, EventView::DirectoryRead(Ok(entries))) => {
            let ps = found_patches(entries);
            if ps.len() == 0 {
                (StageView::Finished, ActionView::Finish(Ok(worked())))
            } else {
                match pkgbuild_patch_position(ps) {
                    Some(k) => (
                        StageView::PatchingPkgbuild(ps.remove(k)),
                        ActionView::ApplyPkgbuildPatch(ps[k].path),
                    ),
                    None => after_pkgbuild_patch(ps, srcinfo),
                }
            }
        },
        (StageView::PatchingPkgbuild(ps), EventView::PkgbuildPatchApplied) => after_pkgbuild_patch(
            ps,
            srcinfo,
        ),
        (StageView::ReadingPatches(ps, a), EventView::PatchesRead(contents)) => {
            let summed = with_checksums(ps, a, contents);
            match srcinfo_values_of(srcinfo, "source"@) {
                None => (StageView::Finished, ActionView::Abort(AbortReason::SourceValues)),
                Some(sources) => (
                    StageView::CopyingPatches(summed, a, sources),
                    ActionView::CopyPatchesAndReadPkgbuild(paths(summed)),
                ),
            }
        },
        (StageView::CopyingPatches(ps, a, sources), EventView::PkgbuildRead(text)) => {
            match srcinfo_values_of(srcinfo, sums_key(a)) {
                None => (StageView::Finished, ActionView::Abort(AbortReason::ChecksumValues)),
                Some(sums) => match updated_pkgbuild(text, a, sources, sums, ps) {
                    None => (StageView::Finished, ActionView::Abort(AbortReason::PkgbuildArray)),
                    Some(t) => (StageView::Writing, ActionView::WritePkgbuild(t)),
                },
            }
        },
        (StageView::Writing, EventView::PkgbuildWritten) => (
            StageView::Finished,
            ActionView::Finish(Ok(worked())),
        ),
        _ => (StageView::Finished, ActionView::Finish(Err(seq![]))),
    }
}

/// The paths of patches.
fn paths_of(patches: &Vec<PatchFile>) -> (r: Vec<String>)
    ensures
        views(r@) == paths(patch_views(patches@)),
{
    let ghost ps = patch_views(patches@);
    let mut r: Vec<String> = Vec::new();
    for i in 0..patches.len()
        invariant
            ps == patch_views(patches@),
            views(r@) == paths(ps).take(i as int),
    {
        let ghost prev = r@;
        r.push(patches[i].path.clone());
        assert(views(r@) =~= paths(ps).take(i + 1)) by {
            assert(views(r@) =~= views(prev).push(r@.last()@));
        }
    }
    assert(paths(ps).take(patches.len() as int) =~= paths(ps));
    r
}

/// The step after the PKGBUILD patch is dealt with.
fn after_pkgbuild(patches: Vec<PatchFile>, srcinfo: &String) -> (r: (PatchStage, PatchAction))
    ensures
        (r.0@, r.1@) == after_pkgbuild_patch(patch_views(patches@), srcinfo@),
{
    if patches.len() == 0 {
        return (PatchStage::Finished, PatchAction::Finish(Ok(String::from_str("worked"))));
    }
    match find_algorithm(srcinfo) {
        Err(e) => (PatchStage::Finished, PatchAction::Finish(Err(e))),
        Ok(a) => {
            let ps = paths_of(&patches);
            (PatchStage::ReadingPatches { patches, algorithm: a }, PatchAction::ReadPatches(ps))
        },
    }
}

/// The patches with their checksums under `a`: each patch's is that of
/// `contents` at its index, in lower-case hexadecimal.
pub fn compute_sums(patches: &Vec<PatchFile>, a: HashAlgorithm, contents: &Vec<Vec<u8>>) -> (r: Vec<
    PatchFile,
>)
    requires
        contents@.len() == patches@.len(),
    ensures
        patch_views(r@) == with_checksums(
            patch_views(patches@),
            a,
            contents@.map_values(|c: Vec<u8>| c@),
        ),
{
    let ghost ps = patch_views(patches@);
    let ghost cs = contents@.map_values(|c: Vec<u8>| c@);
    let ghost want = with_checksums(ps, a, cs);
    let mut r: Vec<PatchFile> = Vec::new();
    for i in 0..patches.len()
        invariant
            contents@.len() == patches@.len(),
            ps == patch_views(patches@),
            cs == contents@.map_values(|c: Vec<u8>| c@),
            want == with_checksums(ps, a, cs),
            patch_views(r@) == want.take(i as int),
    {
        let p = &patches[i];
        let mut q = p.copy();
        q.checksum = Some(checksum(a, contents[i].as_slice()));
        let ghost prev = r@;
        r.push(q);
        assert(cs[i as int] == contents@[i as int]@);
        assert(patch_views(r@) =~= want.take(i + 1)) by {
            assert(patch_views(r@) =~= patch_views(prev).push(r@.last()@));
        }
    }
    assert(want.take(patches.len() as int) =~= want);
    r
}

/// Runs one step of a patching run: given where the run stands, the
/// `.SRCINFO` text of the package and what came of the last action, the
/// next stage and the action to perform. A run starts at
/// `PatchStage::Start` with `PatchEvent::Begin`, and is over when the action
/// is `Finish` or `Abort`.
pub fn patch(stage: PatchStage, srcinfo: &String, event: PatchEvent) -> (r: (
    PatchStage,
    PatchAction,
))
    requires
        fits(stage@, event@),
    ensures
        (r.0@, r.1@) == next_step(stage@, srcinfo@, event@),
{
    match (stage, event) {
        (PatchStage::Start, PatchEvent::Begin) => (
            PatchStage::FindingPatches,
            PatchAction::ReadPatchDirectory,
        ),
        (PatchStage::FindingPatches, PatchEvent::DirectoryRead(Err(e))) => (
            PatchStage::Finished,
            PatchAction::Finish(Err(e)),
        ),
        (PatchStage::FindingPatches, PatchEvent::DirectoryRead(Ok(entries))) => {
            let mut patches = find_patches(&entries);
            if patches.len() == 0 {
                return (PatchStage::Finished, PatchAction::Finish(Ok(String::from_str("worked"))));
            }
            match pkgbuild_patch_index(&patches) {
                Some(k) => {
                    let ghost before = patch_views(patches@);
                    let removed = patches.remove(k);
                    assert(patch_views(patches@) =~= before.remove(k as int));
                    assert(before[k as int] == removed@);
                    (
                        PatchStage::PatchingPkgbuild { patches },
                        PatchAction::ApplyPkgbuildPatch(removed.path),
                    )
                },
                None => after_pkgbuild(patches, srcinfo),
            }
        },
        (PatchStage::PatchingPkgbuild { patches }, PatchEvent::PkgbuildPatchApplied) => {
            after_pkgbuild(patches, srcinfo)
        },
        (PatchStage::ReadingPatches { patches, algorithm }, PatchEvent::PatchesRead(contents)) => {
            let summed = compute_sums(&patches, algorithm, &contents);
            let key = chars_of("source");
            match srcinfo_values(srcinfo, key.as_slice()) {
                None => (PatchStage::Finished, PatchAction::Abort(AbortReason::SourceValues)),
                Some(sources) => {
                    let ps = paths_of(&summed);
                    (
                        PatchStage::CopyingPatches { patches: summed, algorithm, sources },
                        PatchAction::CopyPatchesAndReadPkgbuild(ps),
                    )
                },
            }
        },
        (
            PatchStage::CopyingPatches { patches, algorithm, sources },
            PatchEvent::PkgbuildRead(text),
        ) => {
            let key = algorithm.sums_key();
            match srcinfo_values(srcinfo, key.as_slice()) {
                None => (PatchStage::Finished, PatchAction::Abort(AbortReason::ChecksumValues)),
                Some(sums) => match update_pkgbuild(&text, algorithm, &sources, &sums, &patches) {
                    None => (PatchStage::Finished, PatchAction::Abort(AbortReason::PkgbuildArray)),
                    Some(t) => (PatchStage::Writing, PatchAction::WritePkgbuild(t)),
                },
            }
        },
        (PatchStage::Writing, PatchEvent::PkgbuildWritten) => (
            PatchStage::Finished,
            PatchAction::Finish(Ok(String::from_str("worked"))),
        ),
        _ => {
            assert(false);
            (PatchStage::Finished, PatchAction::Finish(Err(String::new())))
        },
    }
}

} // verus!

verus! {

/// How many steps a stage is at most from the end of the run.
pub open spec fn steps_left(stage: StageView) -> nat {
    match stage {
        StageView::Start => 6,
        StageView::FindingPatches => 5,
        StageView::PatchingPkgbuild(_) => 4,
        StageView::ReadingPatches(_, _) => 3,
        StageView::CopyingPatches(_, _, _) => 2,
        StageView::Writing => 1,
        StageView::Finished => 0,
    }
}

/// The action ends the run.
pub open spec fn is_final(action: ActionView) -> bool {
    action is Finish || action is Abort
}

/// A stage can go on: some event fits it.
pub open spec fn can_go_on(stage: StageView) -> bool {
    match stage {
        StageView::CopyingPatches(ps, _, _) => all_summed(ps),
        _ => true,
    }
}

/// Every step of a run moves towards its end, and the run is over exactly
/// when the action is `Finish` or `Abort`; a stage that is not over can
/// always go on. So a run ends after at most six steps.
pub proof fn lemma_step_progress(stage: StageView, srcinfo: Seq<char>, event: EventView)
    requires
        fits(stage, event),
    ensures
        steps_left(next_step(stage, srcinfo, event).0) < steps_left(stage),
        (next_step(stage, srcinfo, event).0 is Finished) == is_final(
            next_step(stage, srcinfo, event).1,
        ),
        can_go_on(next_step(stage, srcinfo, event).0),
{
    if let (StageView::ReadingPatches(ps, a), EventView::PatchesRead(contents)) = (stage, event) {
        let summed = with_checksums(ps, a, contents);
        assert forall|i: int| 0 <= i < summed.len() implies #[trigger] summed[i].checksum is Some by {
        }
    }
}

/// Where the package's patch directory cannot be read, the run ends with
/// that error and leaves the PKGBUILD alone; where it holds no patch, the
/// run ends successfully and leaves the PKGBUILD alone.
pub proof fn lemma_no_patches_no_change(srcinfo: Seq<char>, read: Result<Seq<PatchDirEntry>, Seq<char>>)
    requires
        read matches Ok(entries) ==> found_patches(entries).len() == 0,
    ensures
        next_step(StageView::FindingPatches, srcinfo, EventView::DirectoryRead(read)) == (
            StageView::Finished,
            match read {
                Ok(_) => ActionView::Finish(Ok(worked())),
                Err(e) => ActionView::Finish(Err(e)),
            },
        ),
{
}

/// After the patches are read, each patch that goes into the PKGBUILD
/// carries the checksum of its contents under the algorithm of the
/// `.SRCINFO` (its digest in lower-case hexadecimal), and keeps its path and
/// file name.
pub proof fn lemma_checksums_of_contents(
    ps: Seq<PatchView>,
    a: HashAlgorithm,
    srcinfo: Seq<char>,
    contents: Seq<Seq<u8>>,
)
    requires
        contents.len() == ps.len(),
    ensures
        next_step(StageView::ReadingPatches(ps, a), srcinfo, EventView::PatchesRead(contents)).0 matches StageView::CopyingPatches(
            summed,
            alg,
            _,
        ) ==> {
            &&& alg == a
            &&& summed.len() == ps.len()
            &&& forall|i: int|
                0 <= i < ps.len() ==> {
                    &&& (#[trigger] summed[i]).path == ps[i].path
                    &&& summed[i].file_name == ps[i].file_name
                    &&& summed[i].checksum == Some(hex_lower(digest_of(a, contents[i])))
                }
        },
{
}

/// The patches that go into the PKGBUILD: those found, without the first
/// one that patches the PKGBUILD itself.
pub open spec fn patches_to_add(entries: Seq<PatchDirEntry>) -> Seq<PatchView> {
    let ps = found_patches(entries);
    match pkgbuild_patch_position(ps) {
        Some(k) => ps.remove(k),
        None => ps,
    }
}

/// Where a run stands once the patch directory is read and the PKGBUILD
/// patch, if any, is applied.
pub open spec fn after_directory(entries: Seq<PatchDirEntry>, srcinfo: Seq<char>) -> (
    StageView,
    ActionView,
) {
    let first = next_step(StageView::FindingPatches, srcinfo, EventView::DirectoryRead(Ok(entries)));
    if first.1 is ApplyPkgbuildPatch {
        next_step(first.0, srcinfo, EventView::PkgbuildPatchApplied)
    } else {
        first
    }
}

/// A whole run that adds patches. The PKGBUILD patch, if any, is applied
/// first; then the other patches are read, copied next to the PKGBUILD, and
/// the PKGBUILD is written: its `source` array lists the `.SRCINFO` sources
/// and then the patches' file names, its checksum array the `.SRCINFO`
/// checksums and then the patches' checksums (the digests of their contents
/// in lower-case hexadecimal), and its `prepare()` starts by applying the
/// patches in order. Then the run ends successfully.
pub proof fn lemma_full_run(
    entries: Seq<PatchDirEntry>,
    srcinfo: Seq<char>,
    a: HashAlgorithm,
    contents: Seq<Seq<u8>>,
    sources: Seq<Seq<char>>,
    sums: Seq<Seq<char>>,
    text: Seq<char>,
)
    requires
        patches_to_add(entries).len() > 0,
        find_algorithm_in(lines_of(srcinfo)) == Some(a),
        contents.len() == patches_to_add(entries).len(),
        srcinfo_values_of(srcinfo, "source"@) == Some(sources),
        srcinfo_values_of(srcinfo, sums_key(a)) == Some(sums),
    ensures
        pkgbuild_patch_position(found_patches(entries)) matches Some(k) ==> next_step(
            StageView::FindingPatches,
            srcinfo,
            EventView::DirectoryRead(Ok(entries)),
        ).1 == ActionView::ApplyPkgbuildPatch(found_patches(entries)[k].path),
        ({
            let rest = patches_to_add(entries);
            let summed = with_checksums(rest, a, contents);
            let r2 = after_directory(entries, srcinfo);
            let r3 = next_step(r2.0, srcinfo, EventView::PatchesRead(contents));
            let r4 = next_step(r3.0, srcinfo, EventView::PkgbuildRead(text));
            &&& r2 == (StageView::ReadingPatches(rest, a), ActionView::ReadPatches(paths(rest)))
            &&& r3 == (
                StageView::CopyingPatches(summed, a, sources),
                ActionView::CopyPatchesAndReadPkgbuild(paths(rest)),
            )
            &&& file_names(summed) == file_names(rest)
            &&& forall|i: int|
                0 <= i < rest.len() ==> #[trigger] checksums(summed)[i] == hex_lower(
                    digest_of(a, contents[i]),
                )
            &&& r4 == match updated_pkgbuild(text, a, sources, sums, summed) {
                Some(t) => (StageView::Writing, ActionView::WritePkgbuild(t)),
                None => (StageView::Finished, ActionView::Abort(AbortReason::PkgbuildArray)),
            }
            &&& next_step(StageView::Writing, srcinfo, EventView::PkgbuildWritten) == (
                StageView::Finished,
                ActionView::Finish(Ok(worked())),
            )
        }),
{
    let ps = found_patches(entries);
    let rest = patches_to_add(entries);
    let summed = with_checksums(rest, a, contents);
    assert(ps.len() > 0) by {
        if ps.len() == 0 {
            assert(pkgbuild_patch_position(ps) is None);
        }
    }
    assert(paths(summed) =~= paths(rest));
    assert(file_names(summed) =~= file_names(rest));
}

/// A whole run on a well-formed PKGBUILD ends well: where its lines are
/// plain, its `source` and checksum arrays are closed, and no source or
/// patch file name holds a `\n`, the run writes the updated PKGBUILD and
/// then finishes with `worked`.
pub proof fn lemma_full_run_succeeds(
    entries: Seq<PatchDirEntry>,
    srcinfo: Seq<char>,
    a: HashAlgorithm,
    contents: Seq<Seq<u8>>,
    sources: Seq<Seq<char>>,
    sums: Seq<Seq<char>>,
    text: Seq<char>,
)
    requires
        patches_to_add(entries).len() > 0,
        find_algorithm_in(lines_of(srcinfo)) == Some(a),
        contents.len() == patches_to_add(entries).len(),
        srcinfo_values_of(srcinfo, "source"@) == Some(sources),
        srcinfo_values_of(srcinfo, sums_key(a)) == Some(sums),
        lines_of(text).len() > 0,
        plain_lines(lines_of(text)),
        closed_after(lines_of(text), "source"@),
        closed_after(lines_of(text), sums_key(a)),
        forall|i: int|
            0 <= i < (sources + file_names(patches_to_add(entries))).len() ==> !(#[trigger] (sources
                + file_names(patches_to_add(entries)))[i]).contains('\n'),
    ensures
        ({
            let summed = with_checksums(patches_to_add(entries), a, contents);
            let r2 = after_directory(entries, srcinfo);
            let r3 = next_step(r2.0, srcinfo, EventView::PatchesRead(contents));
            let r4 = next_step(r3.0, srcinfo, EventView::PkgbuildRead(text));
            &&& updated_pkgbuild(text, a, sources, sums, summed) is Some
            &&& r4 == (
                StageView::Writing,
                ActionView::WritePkgbuild(updated_pkgbuild(text, a, sources, sums, summed)->0),
            )
            &&& next_step(r4.0, srcinfo, EventView::PkgbuildWritten) == (
                StageView::Finished,
                ActionView::Finish(Ok(worked())),
            )
        }),
{
    let rest = patches_to_add(entries);
    let summed = with_checksums(rest, a, contents);
    lemma_full_run(entries, srcinfo, a, contents, sources, sums, text);
    assert(file_names(summed) == file_names(rest));
    lemma_update_succeeds(text, a, sources, sums, summed);
}

} // verus!

verus! {

/// The patches added to the PKGBUILD are all the patches found, in order,
/// but for the first one named `PKGBUILD`, which is applied to the PKGBUILD
/// instead; later patches so named are added like the others.
pub proof fn lemma_patches_added(entries: Seq<PatchDirEntry>)
    ensures
        ({
            let ps = found_patches(entries);
            match pkgbuild_patch_position(ps) {
                Some(k) => patches_to_add(entries) == ps.take(k) + ps.skip(k + 1),
                None => patches_to_add(entries) == ps,
            }
        }),
{
    let ps = found_patches(entries);
    if let Some(k) = pkgbuild_patch_position(ps) {
        assert(ps.remove(k) =~= ps.take(k) + ps.skip(k + 1));
    }
}

} // verus!

verus! {

/// Where the only patch found is the PKGBUILD patch, the run applies it to
/// the PKGBUILD and then ends successfully, adding nothing.
pub proof fn lemma_only_pkgbuild_patch(entries: Seq<PatchDirEntry>, srcinfo: Seq<char>)
    requires
        found_patches(entries).len() > 0,
        patches_to_add(entries).len() == 0,
    ensures
        pkgbuild_patch_position(found_patches(entries)) matches Some(k) && next_step(
            StageView::FindingPatches,
            srcinfo,
            EventView::DirectoryRead(Ok(entries)),
        ).1 == ActionView::ApplyPkgbuildPatch(found_patches(entries)[k].path),
        after_directory(entries, srcinfo) == (StageView::Finished, ActionView::Finish(
            Ok(worked()),
        )),
{
}

/// Where there are patches to add but no line of the `.SRCINFO` names a
/// checksum algorithm, the run ends with the error `No algorithm found`
/// and never reads the patches or touches the PKGBUILD's text.
pub proof fn lemma_no_algorithm_fails(entries: Seq<PatchDirEntry>, srcinfo: Seq<char>)
    requires
        patches_to_add(entries).len() > 0,
        forall|k: int, b: HashAlgorithm|
            0 <= k < lines_of(srcinfo).len() ==> !(#[trigger] sums_line(lines_of(srcinfo)[k], b)),
    ensures
        after_directory(entries, srcinfo) == (StageView::Finished, ActionView::Finish(
            Err("No algorithm found"@),
        )),
{
    lemma_algorithm_of_first_sums_line(lines_of(srcinfo));
    if let Some(a) = find_algorithm_in(lines_of(srcinfo)) {
        let k = choose|k: int|
            0 <= k < lines_of(srcinfo).len() && sums_line(#[trigger] lines_of(srcinfo)[k], a)
                && forall|j: int, b: HashAlgorithm|
                0 <= j < k ==> !(#[trigger] sums_line(lines_of(srcinfo)[j], b));
        assert(!sums_line(lines_of(srcinfo)[k], a));
    }
}

} // verus!
