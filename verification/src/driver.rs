//! A backup run from end to end: find the previous checkpoint, stage its
//! metadata, walk the source tree, fold the new metadata, and only then
//! name the new checkpoint as the latest.

use vstd::prelude::*;
use vstd::utf8::valid_utf8;
use crate::archive::ArchiveError;
use crate::clock::valid_timestamp;
use crate::fold::{
    compress_dir, extract_dir, fold_failed, folded_tree, lemma_nothing_to_unfold,
    lemma_unfolded_tree_is_unique, needs_fold, needs_unfold, tree_folds, tree_unfolds,
    unfold_failed, unfolded_tree, ArchiveFailure,
};
use crate::text::utf8_check;
use crate::tree::{
    clone_file, copy_bytes, dirs_view, files_view, lemma_dir_view, opt_dir_view, path_view,
    paths_view, DirNode, DirView, FileNode, FileView,
};
use crate::walker::{
    backup_tree, failure_path, meta_tree, traverse_backup, traverse_meta, WalkError, WalkFault,
};

verus! {

/// The settings of a backup run as mathematical values.
pub struct ConfigView {
    pub ignore_dirs: Seq<Seq<Seq<u8>>>,
    pub archive_name: Seq<u8>,
    pub remove_temp_immediately: bool,
}

/// The settings of a backup run.
#[derive(Debug)]
pub struct Config {
    /// The paths of the directories that are left out, with all below them.
    pub ignore_dirs: Vec<Vec<Vec<u8>>>,
    /// The name of the archive that holds the metadata of a directory.
    pub archive_name: Vec<u8>,
    /// Whether the staged copy of the previous checkpoint is removed at
    /// the end of the run.
    pub remove_temp_immediately: bool,
}

impl View for Config {
    type V = ConfigView;

    open spec fn view(&self) -> ConfigView {
        ConfigView {
            ignore_dirs: paths_view(self.ignore_dirs@),
            archive_name: self.archive_name@,
            remove_temp_immediately: self.remove_temp_immediately,
        }
    }
}

/// Why a backup run failed. A run that fails names no new checkpoint.
#[derive(Debug, PartialEq, Eq)]
pub enum BackupError {
    /// The walk over the source stopped: the files of a directory are not
    /// named apart, or metadata of the previous checkpoint could not be
    /// read.
    Walk(WalkError),
    /// An archive could not be read or written.
    Archive(ArchiveFailure),
}

/// What a run leaves of the staged copy of the previous checkpoint.
#[derive(Debug)]
pub enum Staging {
    /// There was no previous checkpoint: the place of the staged copy was
    /// not touched.
    Untouched,
    /// The staged copy was made and removed again.
    Removed,
    /// The staged copy stays, for inspection.
    Kept(DirNode),
}

/// What a successful run leaves behind.
#[derive(Debug)]
pub struct BackupPlan {
    /// The new checkpoint.
    pub checkpoint: DirNode,
    /// What is left of the staged copy.
    pub staging: Staging,
    /// The new content of the pointer to the latest checkpoint.
    pub pointer: Vec<u8>,
}

/// The text `text` without the white space at its start and at its end.
pub uninterp spec fn trimmed(text: Seq<u8>) -> Seq<u8>;

/// Trusted: `str::trim`. The contract gives the trimmed text a name and
/// claims that it is no longer than the text, of which it is a part.
#[verifier::external_body]
pub(crate) fn trim_text(text: &[u8]) -> (out: Vec<u8>)
    requires
        valid_utf8(text@),
    ensures
        out@ == trimmed(text@),
        out@.len() <= text@.len(),
{
    String::from_utf8_lossy(text).trim().as_bytes().to_vec()
}

/// The name of the latest checkpoint that a trimmed pointer holds: none
/// where nothing is left of the pointer.
pub open spec fn pointed(trimmed_pointer: Seq<u8>) -> Option<Seq<u8>> {
    if trimmed_pointer.len() == 0 {
        None
    } else {
        Some(trimmed_pointer)
    }
}

/// The name of the latest checkpoint that the content of the pointer
/// names: none where the content is not text or holds only white space.
pub open spec fn last_checkpoint_name(pointer: Seq<u8>) -> Option<Seq<u8>> {
    if valid_utf8(pointer) {
        pointed(trimmed(pointer))
    } else {
        None
    }
}

/// The name of the latest checkpoint, given the trimmed content of the
/// pointer.
pub fn resolve_pointer(trimmed_pointer: Vec<u8>) -> (name: Option<Vec<u8>>)
    ensures
        match pointed(trimmed_pointer@) {
            Some(text) => name matches Some(found) && found@ == text,
            None => name is None,
        },
{
    if trimmed_pointer.len() == 0 {
        None
    } else {
        Some(trimmed_pointer)
    }
}

/// The name of the latest checkpoint, given the content of the pointer.
/// A pointer that is missing counts as empty, and an empty pointer names
/// no checkpoint.
pub fn read_last_checkpoint(pointer: &[u8]) -> (name: Option<Vec<u8>>)
    ensures
        match last_checkpoint_name(pointer@) {
            Some(text) => name matches Some(found) && found@ == text,
            None => name is None,
        },
        pointer@.len() == 0 ==> name is None,
{
    if !utf8_check(pointer) {
        return None;
    }
    resolve_pointer(trim_text(pointer))
}

/// Those of the first `n` files of a listing that are called `name`.
pub open spec fn files_named(files: Seq<FileView>, n: nat, name: Seq<u8>) -> Seq<FileView>
    decreases n,
{
    if n == 0 || n > files.len() {
        Seq::<FileView>::empty()
    } else if files[n - 1].name == name {
        files_named(files, (n - 1) as nat, name).push(files[n - 1])
    } else {
        files_named(files, (n - 1) as nat, name)
    }
}

/// The tree `dir` with all its directories, and of its files only the
/// metadata archives.
pub open spec fn archives_only(dir: DirView, archive_name: Seq<u8>) -> DirView
    decreases dir, 0nat,
{
    DirView {
        name: dir.name,
        files: files_named(dir.files, dir.files.len(), archive_name),
        dirs: archives_only_dirs(dir.dirs, dir.dirs.len(), archive_name),
    }
}

/// The first `n` directories of a listing, each with only its metadata
/// archives.
pub open spec fn archives_only_dirs(dirs: Seq<DirView>, n: nat, archive_name: Seq<u8>) -> Seq<
    DirView,
>
    decreases dirs, n,
{
    if n == 0 || n > dirs.len() {
        Seq::<DirView>::empty()
    } else {
        archives_only_dirs(dirs, (n - 1) as nat, archive_name).push(
            archives_only(dirs[n - 1], archive_name),
        )
    }
}

/// Copies a checkpoint for staging: all its directories, and of its files
/// only the metadata archives.
pub fn copy_dir_recursive(src: &DirNode, archive_name: &[u8]) -> (dst: DirNode)
    ensures
        dst@ == archives_only(src@, archive_name@),
    decreases src,
{
    let ghost from = src@;
    proof {
        lemma_dir_view(*src);
    }
    let mut files: Vec<FileNode> = Vec::new();
    let mut i: usize = 0;
    assert(files_view(files@) =~= Seq::<FileView>::empty());
    while i < src.files.len()
        invariant
            i <= src.files.len(),
            from.files == files_view(src.files@),
            files_view(files@) == files_named(from.files, i as nat, archive_name@),
        decreases src.files.len() - i,
    {
        let file = &src.files[i];
        assert(from.files[i as int] == file@);
        if crate::text::bytes_equal(file.name.as_slice(), archive_name) {
            let ghost before = files_view(files@);
            files.push(clone_file(file));
            assert(files_view(files@) =~= before.push(file@));
        }
        i += 1;
    }
    let mut dirs: Vec<DirNode> = Vec::new();
    let mut j: usize = 0;
    assert(dirs_view(dirs@) =~= Seq::<DirView>::empty());
    while j < src.dirs.len()
        invariant
            j <= src.dirs.len(),
            from.dirs == dirs_view(src.dirs@),
            dirs_view(dirs@) == archives_only_dirs(from.dirs, j as nat, archive_name@),
        decreases src.dirs.len() - j,
    {
        let sub = &src.dirs[j];
        assert(from.dirs[j as int] == sub@);
        let copied = copy_dir_recursive(sub, archive_name);
        let ghost before = dirs_view(dirs@);
        dirs.push(copied);
        assert(dirs_view(dirs@) =~= before.push(copied@));
        j += 1;
    }
    let dst = DirNode { name: copy_bytes(src.name.as_slice()), files, dirs };
    proof {
        lemma_dir_view(dst);
    }
    dst
}

/// Writes metadata for every file of the tree `dir`, which stands at
/// `path`, and folds it into one archive for each directory. No previous
/// checkpoint plays a part. The call succeeds exactly if folding succeeds
/// in every directory that is entered; a tree that comes back is the given
/// tree with its metadata written and folded.
pub fn generate_meta(dir: &DirNode, path: &Vec<Vec<u8>>, config: &Config, now: i64) -> (r: Result<
    DirNode,
    ArchiveFailure,
>)
    requires
        valid_timestamp(now as int),
    ensures
        r is Ok <==> tree_folds(
            meta_tree(dir@, path_view(path@), config@.ignore_dirs, now as int),
            path_view(path@),
            config@.ignore_dirs,
        ),
        !needs_fold(
            meta_tree(dir@, path_view(path@), config@.ignore_dirs, now as int),
            path_view(path@),
            config@.ignore_dirs,
        ) ==> r is Ok,
        r matches Ok(out) ==> folded_tree(
            meta_tree(dir@, path_view(path@), config@.ignore_dirs, now as int),
            out@,
            path_view(path@),
            config@.ignore_dirs,
            config@.archive_name,
        ),
        r matches Err(failure) ==> fold_failed(
            meta_tree(dir@, path_view(path@), config@.ignore_dirs, now as int),
            path_view(path@),
            config@.ignore_dirs,
            path_view(failure.path@),
            failure.error,
        ),
{
    let with_meta = traverse_meta(dir, path, &config.ignore_dirs, now);
    compress_dir(&with_meta, path, &config.ignore_dirs, config.archive_name.as_slice())
}

/// Whether `staged` is a staged copy of the previous checkpoint `last`:
/// its directories with their metadata archives unfolded, and nothing
/// else. `staging_path` is where the staged copy stands.
pub open spec fn staged_from(
    last: DirView,
    staged: DirView,
    staging_path: Seq<Seq<u8>>,
    config: ConfigView,
) -> bool {
    unfolded_tree(
        archives_only(last, config.archive_name),
        staged,
        staging_path,
        config.ignore_dirs,
        config.archive_name,
    )
}

/// The view of what a run leaves of the staged copy.
pub open spec fn staging_view(staging: Staging) -> Option<Option<DirView>> {
    match staging {
        Staging::Untouched => None,
        Staging::Removed => Some(None),
        Staging::Kept(dir) => Some(Some(dir@)),
    }
}

/// Whether `checkpoint` is the new checkpoint of a run over `source`
/// against the staged copy `staged` of the previous checkpoint: what the
/// walk builds, with the metadata of every directory folded.
pub open spec fn checkpoint_of(
    source: DirView,
    source_path: Seq<Seq<u8>>,
    staged: Option<DirView>,
    checkpoint_path: Seq<Seq<u8>>,
    config: ConfigView,
    now: int,
    checkpoint: DirView,
) -> bool {
    match backup_tree(source, source_path, staged, config.ignore_dirs, now) {
        Ok(walked) => folded_tree(
            walked,
            checkpoint,
            checkpoint_path,
            config.ignore_dirs,
            config.archive_name,
        ),
        Err(_) => false,
    }
}

/// Whether the walk over `source` against `staged` succeeds and folding
/// what it builds fails at the path `at` for the reason `error`.
pub open spec fn fold_stops(
    source: DirView,
    source_path: Seq<Seq<u8>>,
    staged: Option<DirView>,
    checkpoint_path: Seq<Seq<u8>>,
    config: ConfigView,
    now: int,
    at: Seq<Seq<u8>>,
    error: ArchiveError,
) -> bool {
    backup_tree(source, source_path, staged, config.ignore_dirs, now) matches Ok(walked)
        && !tree_folds(walked, checkpoint_path, config.ignore_dirs) && fold_failed(
        walked,
        checkpoint_path,
        config.ignore_dirs,
        at,
        error,
    )
}

/// Whether the walk over `source` against some staged copy of the
/// previous checkpoint `last` succeeds and folding what it builds fails at
/// the path `at` for the reason `error`.
pub open spec fn fold_stops_against(
    source: DirView,
    source_path: Seq<Seq<u8>>,
    last: DirView,
    staging_path: Seq<Seq<u8>>,
    checkpoint_path: Seq<Seq<u8>>,
    config: ConfigView,
    now: int,
    at: Seq<Seq<u8>>,
    error: ArchiveError,
) -> bool {
    exists|staged: DirView|
        #[trigger] staged_from(last, staged, staging_path, config) && fold_stops(
            source,
            source_path,
            Some(staged),
            checkpoint_path,
            config,
            now,
            at,
            error,
        )
}

/// Whether a run fails at the path `at` for the reason `error` over an
/// archive: unfolding fails there in the staged copy of the previous
/// checkpoint, or else the walk succeeds and folding fails there in the
/// new checkpoint.
pub open spec fn archive_failed(
    source: DirView,
    source_path: Seq<Seq<u8>>,
    last: Option<DirView>,
    staging_path: Seq<Seq<u8>>,
    checkpoint_path: Seq<Seq<u8>>,
    config: ConfigView,
    now: int,
    at: Seq<Seq<u8>>,
    error: ArchiveError,
) -> bool {
    match last {
        None => fold_stops(source, source_path, None, checkpoint_path, config, now, at, error),
        Some(last) => if tree_unfolds(
            archives_only(last, config.archive_name),
            staging_path,
            config.ignore_dirs,
            config.archive_name,
        ) {
            fold_stops_against(
                source,
                source_path,
                last,
                staging_path,
                checkpoint_path,
                config,
                now,
                at,
                error,
            )
        } else {
            unfold_failed(
                archives_only(last, config.archive_name),
                staging_path,
                config.ignore_dirs,
                config.archive_name,
                at,
                error,
            )
        },
    }
}

/// Whether the walk over `source` against `staged` stops for the reason
/// `fault` at the path `at`.
pub open spec fn walk_stops(
    source: DirView,
    source_path: Seq<Seq<u8>>,
    staged: Option<DirView>,
    config: ConfigView,
    now: int,
    fault: WalkFault,
    at: Seq<Seq<u8>>,
) -> bool {
    &&& backup_tree(source, source_path, staged, config.ignore_dirs, now) == Err::<
        DirView,
        WalkFault,
    >(fault)
    &&& at == failure_path(source, source_path, staged, config.ignore_dirs, now)
}

/// Whether the walk over `source` against some staged copy of the
/// previous checkpoint `last` stops for the reason `fault` at the path
/// `at`.
pub open spec fn walk_failed_against(
    source: DirView,
    source_path: Seq<Seq<u8>>,
    last: DirView,
    staging_path: Seq<Seq<u8>>,
    config: ConfigView,
    now: int,
    fault: WalkFault,
    at: Seq<Seq<u8>>,
) -> bool {
    exists|staged: DirView|
        #[trigger] staged_from(last, staged, staging_path, config) && walk_stops(
            source,
            source_path,
            Some(staged),
            config,
            now,
            fault,
            at,
        )
}

/// Whether the walk of a run stops for the reason `fault` at the path
/// `at`: the walk over `source` against nothing where there is no previous
/// checkpoint, and else against a staged copy of the previous checkpoint.
pub open spec fn walk_failed(
    source: DirView,
    source_path: Seq<Seq<u8>>,
    last: Option<DirView>,
    staging_path: Seq<Seq<u8>>,
    config: ConfigView,
    now: int,
    fault: WalkFault,
    at: Seq<Seq<u8>>,
) -> bool {
    match last {
        None => walk_stops(source, source_path, None, config, now, fault, at),
        Some(last) => walk_failed_against(
            source,
            source_path,
            last,
            staging_path,
            config,
            now,
            fault,
            at,
        ),
    }
}

/// Whether the walk over `source` against `staged` succeeds and folding
/// succeeds in what it builds.
pub open spec fn walk_folds(
    source: DirView,
    source_path: Seq<Seq<u8>>,
    staged: Option<DirView>,
    checkpoint_path: Seq<Seq<u8>>,
    config: ConfigView,
    now: int,
) -> bool {
    backup_tree(source, source_path, staged, config.ignore_dirs, now) matches Ok(walked)
        && tree_folds(walked, checkpoint_path, config.ignore_dirs)
}

/// Whether a run against the previous checkpoint `last` succeeds once the
/// checkpoint is staged: the walk against the staged copy succeeds, and
/// folding succeeds in what it builds.
pub open spec fn run_succeeds_against(
    source: DirView,
    source_path: Seq<Seq<u8>>,
    last: DirView,
    staging_path: Seq<Seq<u8>>,
    checkpoint_path: Seq<Seq<u8>>,
    config: ConfigView,
    now: int,
) -> bool {
    exists|staged: DirView|
        #[trigger] staged_from(last, staged, staging_path, config) && walk_folds(
            source,
            source_path,
            Some(staged),
            checkpoint_path,
            config,
            now,
        )
}

/// Whether a run succeeds: unfolding succeeds in the staged copy of the
/// previous checkpoint, if there is one, the walk reads every record of
/// the previous checkpoint that it looks at, and folding succeeds in the
/// new checkpoint.
pub open spec fn run_succeeds(
    source: DirView,
    source_path: Seq<Seq<u8>>,
    last: Option<DirView>,
    staging_path: Seq<Seq<u8>>,
    checkpoint_path: Seq<Seq<u8>>,
    config: ConfigView,
    now: int,
) -> bool {
    match last {
        None => walk_folds(source, source_path, None, checkpoint_path, config, now),
        Some(last) => tree_unfolds(
            archives_only(last, config.archive_name),
            staging_path,
            config.ignore_dirs,
            config.archive_name,
        ) && run_succeeds_against(
            source,
            source_path,
            last,
            staging_path,
            checkpoint_path,
            config,
            now,
        ),
    }
}

/// A previous checkpoint has one staged copy only, so a run against it
/// succeeds exactly if the walk against that copy and the folding do.
pub proof fn lemma_run_against_staged(
    source: DirView,
    source_path: Seq<Seq<u8>>,
    last: DirView,
    staged: DirView,
    staging_path: Seq<Seq<u8>>,
    checkpoint_path: Seq<Seq<u8>>,
    config: ConfigView,
    now: int,
)
    requires
        staged_from(last, staged, staging_path, config),
    ensures
        run_succeeds_against(
            source,
            source_path,
            last,
            staging_path,
            checkpoint_path,
            config,
            now,
        ) <==> walk_folds(source, source_path, Some(staged), checkpoint_path, config, now),
{
    if run_succeeds_against(
        source,
        source_path,
        last,
        staging_path,
        checkpoint_path,
        config,
        now,
    ) {
        let other = choose|other: DirView|
            #[trigger] staged_from(last, other, staging_path, config) && walk_folds(
                source,
                source_path,
                Some(other),
                checkpoint_path,
                config,
                now,
            );
        lemma_unfolded_tree_is_unique(
            archives_only(last, config.archive_name),
            staged,
            other,
            staging_path,
            config.ignore_dirs,
            config.archive_name,
        );
    }
    if walk_folds(source, source_path, Some(staged), checkpoint_path, config, now) {
        assert(exists|other: DirView|
            #[trigger] staged_from(last, other, staging_path, config) && walk_folds(
                source,
                source_path,
                Some(other),
                checkpoint_path,
                config,
                now,
            ));
    }
}

/// One backup run. `source` is the tree to back up and `source_path` its
/// path; `last_checkpoint` is the checkpoint that the pointer names, if
/// there is one; `staging_path` and `checkpoint_path` are the places of
/// the staged copy and of the new checkpoint; `checkpoint_name` is the
/// name of the new checkpoint.
///
/// The run stages the metadata of the previous checkpoint, walks the
/// source against it, and folds the metadata of the new checkpoint. It
/// succeeds exactly if each of the three does. Only a run that got through
/// all of this hands back a plan, and only the plan holds the new content
/// of the pointer.
pub fn backup(
    source: &DirNode,
    source_path: &Vec<Vec<u8>>,
    last_checkpoint: Option<&DirNode>,
    staging_path: &Vec<Vec<u8>>,
    checkpoint_path: &Vec<Vec<u8>>,
    checkpoint_name: Vec<u8>,
    config: &Config,
    now: i64,
) -> (r: Result<BackupPlan, BackupError>)
    requires
        valid_timestamp(now as int),
    ensures
        r is Ok <==> run_succeeds(
            source@,
            path_view(source_path@),
            opt_dir_view(last_checkpoint),
            path_view(staging_path@),
            path_view(checkpoint_path@),
            config@,
            now as int,
        ),
        match r {
            Ok(plan) => {
                &&& plan.pointer@ == checkpoint_name@
                &&& match last_checkpoint {
                    None => plan.staging is Untouched && checkpoint_of(
                        source@,
                        path_view(source_path@),
                        None,
                        path_view(checkpoint_path@),
                        config@,
                        now as int,
                        plan.checkpoint@,
                    ),
                    Some(last) => exists|staged: DirView|
                        {
                            &&& #[trigger] staged_from(
                                last@,
                                staged,
                                path_view(staging_path@),
                                config@,
                            )
                            &&& checkpoint_of(
                                source@,
                                path_view(source_path@),
                                Some(staged),
                                path_view(checkpoint_path@),
                                config@,
                                now as int,
                                plan.checkpoint@,
                            )
                            &&& staging_view(plan.staging) == (if config.remove_temp_immediately {
                                Some(None::<DirView>)
                            } else {
                                Some(Some(staged))
                            })
                        },
                }
            },
            Err(BackupError::Walk(e)) => walk_failed(
                source@,
                path_view(source_path@),
                opt_dir_view(last_checkpoint),
                path_view(staging_path@),
                config@,
                now as int,
                e.error,
                path_view(e.path@),
            ),
            Err(BackupError::Archive(failure)) => archive_failed(
                source@,
                path_view(source_path@),
                opt_dir_view(last_checkpoint),
                path_view(staging_path@),
                path_view(checkpoint_path@),
                config@,
                now as int,
                path_view(failure.path@),
                failure.error,
            ),
        },
        (last_checkpoint matches Some(last) ==> !needs_unfold(
            archives_only(last@, config@.archive_name),
            path_view(staging_path@),
            config@.ignore_dirs,
            config@.archive_name,
        )) && (backup_tree(
            source@,
            path_view(source_path@),
            match last_checkpoint {
                Some(last) => Some(archives_only(last@, config@.archive_name)),
                None => None,
            },
            config@.ignore_dirs,
            now as int,
        ) matches Ok(walked) && !needs_fold(
            walked,
            path_view(checkpoint_path@),
            config@.ignore_dirs,
        )) ==> r is Ok,
{
    let archive_name = config.archive_name.as_slice();
    let staged: Option<DirNode> = match last_checkpoint {
        None => None,
        Some(last) => {
            let copied = copy_dir_recursive(last, archive_name);
            match extract_dir(&copied, staging_path, &config.ignore_dirs, archive_name) {
                Ok(staged) => Some(staged),
                Err(e) => {
                    return Err(BackupError::Archive(e));
                },
            }
        },
    };
    proof {
        match &staged {
            None => {},
            Some(dir) => {
                assert(staged_from(last_checkpoint->0@, dir@, path_view(staging_path@), config@));
                lemma_run_against_staged(
                    source@,
                    path_view(source_path@),
                    last_checkpoint->0@,
                    dir@,
                    path_view(staging_path@),
                    path_view(checkpoint_path@),
                    config@,
                    now as int,
                );
                if !needs_unfold(
                    archives_only(last_checkpoint->0@, config@.archive_name),
                    path_view(staging_path@),
                    config@.ignore_dirs,
                    config@.archive_name,
                ) {
                    lemma_nothing_to_unfold(
                        archives_only(last_checkpoint->0@, config@.archive_name),
                        dir@,
                        path_view(staging_path@),
                        config@.ignore_dirs,
                        config@.archive_name,
                    );
                }
            },
        }
    }
    let walked = match traverse_backup(
        source,
        source_path,
        staged.as_ref(),
        &config.ignore_dirs,
        now,
    ) {
        Ok(walked) => walked,
        Err(e) => {
            proof {
                if let Some(dir) = &staged {
                    assert(staged_from(
                        last_checkpoint->0@,
                        dir@,
                        path_view(staging_path@),
                        config@,
                    ));
                    assert(walk_stops(
                        source@,
                        path_view(source_path@),
                        Some(dir@),
                        config@,
                        now as int,
                        e.error,
                        path_view(e.path@),
                    ));
                    assert(walk_failed_against(
                        source@,
                        path_view(source_path@),
                        last_checkpoint->0@,
                        path_view(staging_path@),
                        config@,
                        now as int,
                        e.error,
                        path_view(e.path@),
                    ));
                }
            }
            return Err(BackupError::Walk(e));
        },
    };
    let checkpoint = match compress_dir(
        &walked,
        checkpoint_path,
        &config.ignore_dirs,
        archive_name,
    ) {
        Ok(checkpoint) => checkpoint,
        Err(e) => {
            proof {
                if let Some(dir) = &staged {
                    assert(staged_from(
                        last_checkpoint->0@,
                        dir@,
                        path_view(staging_path@),
                        config@,
                    ));
                    assert(fold_stops(
                        source@,
                        path_view(source_path@),
                        Some(dir@),
                        path_view(checkpoint_path@),
                        config@,
                        now as int,
                        path_view(e.path@),
                        e.error,
                    ));
                    assert(fold_stops_against(
                        source@,
                        path_view(source_path@),
                        last_checkpoint->0@,
                        path_view(staging_path@),
                        path_view(checkpoint_path@),
                        config@,
                        now as int,
                        path_view(e.path@),
                        e.error,
                    ));
                }
            }
            return Err(BackupError::Archive(e));
        },
    };
    let staging = match staged {
        None => Staging::Untouched,
        Some(dir) => {
            assert(staged_from(last_checkpoint->0@, dir@, path_view(staging_path@), config@));
            if config.remove_temp_immediately {
                Staging::Removed
            } else {
                Staging::Kept(dir)
            }
        },
    };
    Ok(BackupPlan { checkpoint, staging, pointer: checkpoint_name })
}

} // verus!
