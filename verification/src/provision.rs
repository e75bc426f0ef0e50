use vstd::prelude::*;

use crate::disk::{blocked, provisioned, ancestors, DiskModel, DiskView};
use crate::disk::lemma_existing_dir_provisioned;
use crate::error::ErrorKind;
use crate::path::{path_text, seg_wf, AppPath, PathView};

verus! {

/// The fixed name of the child directory kept under the application-data
/// root.
pub open spec fn templates_segment() -> Seq<char> {
    "templates"@
}

/// The fixed child-segment name is a valid path segment.
pub proof fn lemma_templates_segment_wf()
    ensures
        seg_wf(templates_segment()),
{
    reveal_strlit("templates");
    assert(templates_segment().len() == 9);
    assert forall|i: int| 0 <= i < templates_segment().len() implies templates_segment()[i]
        != '/' by {
        let s = templates_segment();
        if i == 0 {
            assert(s[0] != '/');
        } else if i == 1 {
            assert(s[1] != '/');
        } else if i == 2 {
            assert(s[2] != '/');
        } else if i == 3 {
            assert(s[3] != '/');
        } else if i == 4 {
            assert(s[4] != '/');
        } else if i == 5 {
            assert(s[5] != '/');
        } else if i == 6 {
            assert(s[6] != '/');
        } else if i == 7 {
            assert(s[7] != '/');
        } else {
            assert(s[8] != '/');
        }
    };
}

/// The application-context handle: what the hosting runtime's platform
/// policy resolved as the application-data root, if anything.
pub struct AppContext {
    data_root: Option<AppPath>,
}

impl View for AppContext {
    type V = Option<PathView>;

    closed spec fn view(&self) -> Option<PathView> {
        match self.data_root {
            Some(ref p) => Some(p@),
            None => None,
        }
    }
}

impl AppContext {
    /// A context whose platform path policy resolved a root is valid when
    /// that root is a well-formed absolute path.
    pub open spec fn wf(self) -> bool {
        match self@ {
            Some(p) => p.wf(),
            None => true,
        }
    }

    /// A context whose platform resolved the given application-data root.
    pub fn with_data_root(root: AppPath) -> (c: AppContext)
        requires
            root@.wf(),
        ensures
            c@ == Some(root@),
            c.wf(),
    {
        AppContext { data_root: Some(root) }
    }

    /// A context whose platform could not supply an application-data root.
    pub fn without_data_root() -> (c: AppContext)
        ensures
            c@ == None::<PathView>,
            c.wf(),
    {
        AppContext { data_root: None }
    }

    /// The platform-resolved application-data root, if the platform has one.
    pub fn app_data_root(&self) -> (r: &Option<AppPath>)
        ensures
            match r {
                Some(p) => self@ == Some(p@),
                None => self@ == None::<PathView>,
            },
    {
        &self.data_root
    }
}

/// The textual content of an operation's result, with its error unchanged.
pub open spec fn result_text(r: Result<String, ErrorKind>) -> Result<Seq<char>, ErrorKind> {
    match r {
        Ok(s) => Ok(s@),
        Err(e) => Err(e),
    }
}

/// What resolving the application-data directory returns and how it changes
/// the disk: without a platform root it fails at once; a non-directory entry
/// on the chain makes it fail without touching the disk; otherwise the whole
/// chain is created, and the textual path is returned when the root has a
/// textual form.
pub open spec fn data_directory_outcome(root: Option<PathView>, d: DiskView) -> (Result<
    Seq<char>,
    ErrorKind,
>, DiskView) {
    match root {
        None => (Err(ErrorKind::PlatformPathUnavailable), d),
        Some(p) => if blocked(d, p.segments) {
            (Err(ErrorKind::DirectoryCreationFailed), d)
        } else if !p.representable {
            (Err(ErrorKind::PathNotRepresentable), provisioned(d, p.segments))
        } else {
            (Ok(path_text(p.segments)), provisioned(d, p.segments))
        },
    }
}

/// What resolving the templates directory returns and how it changes the
/// disk: the same resolution, applied to the root extended with the fixed
/// child segment.
pub open spec fn templates_directory_outcome(root: Option<PathView>, d: DiskView) -> (Result<
    Seq<char>,
    ErrorKind,
>, DiskView) {
    match root {
        None => (Err(ErrorKind::PlatformPathUnavailable), d),
        Some(p) => data_directory_outcome(Some(p.child(templates_segment())), d),
    }
}

/// Ensures the path exists as a directory, creating the missing part of its
/// ancestor chain, and renders it as text.
fn provision_path(p: &AppPath, disk: &mut DiskModel) -> (r: Result<String, ErrorKind>)
    requires
        p@.wf(),
        old(disk)@.wf(),
    ensures
        final(disk)@.wf(),
        result_text(r) == data_directory_outcome(Some(p@), old(disk)@).0,
        final(disk)@ == data_directory_outcome(Some(p@), old(disk)@).1,
{
    if !disk.is_dir(p) {
        if !disk.create_dir_all(p) {
            return Err(ErrorKind::DirectoryCreationFailed);
        }
    } else {
        proof {
            lemma_existing_dir_provisioned(disk@, p@.segments);
        }
    }
    match p.to_text() {
        Some(s) => Ok(s),
        None => Err(ErrorKind::PathNotRepresentable),
    }
}

/// Resolves the platform's application-data directory, creates it if it is
/// absent, and returns its absolute path as text.
pub fn resolve_data_directory(ctx: &AppContext, disk: &mut DiskModel) -> (r: Result<
    String,
    ErrorKind,
>)
    requires
        ctx.wf(),
        old(disk)@.wf(),
    ensures
        final(disk)@.wf(),
        result_text(r) == data_directory_outcome(ctx@, old(disk)@).0,
        final(disk)@ == data_directory_outcome(ctx@, old(disk)@).1,
{
    match ctx.app_data_root() {
        None => Err(ErrorKind::PlatformPathUnavailable),
        Some(base) => provision_path(base, disk),
    }
}

/// Resolves the platform's application-data directory, appends the fixed
/// "templates" child segment, creates the child (and any missing ancestor)
/// if absent, and returns the child's absolute path as text.
pub fn resolve_templates_directory(ctx: &AppContext, disk: &mut DiskModel) -> (r: Result<
    String,
    ErrorKind,
>)
    requires
        ctx.wf(),
        old(disk)@.wf(),
    ensures
        final(disk)@.wf(),
        result_text(r) == templates_directory_outcome(ctx@, old(disk)@).0,
        final(disk)@ == templates_directory_outcome(ctx@, old(disk)@).1,
{
    match ctx.app_data_root() {
        None => Err(ErrorKind::PlatformPathUnavailable),
        Some(base) => {
            proof {
                lemma_templates_segment_wf();
            }
            let child = base.join("templates");
            provision_path(&child, disk)
        },
    }
}

/// Provisioning the data directory is idempotent: a second call returns the
/// same outcome as the first and leaves the disk exactly as the first left
/// it, and whenever the platform supplied an unblocked root the directory
/// exists from the first call on.
pub proof fn lemma_data_directory_idempotent(root: Option<PathView>, d: DiskView)
    requires
        d.wf(),
        root matches Some(p) ==> p.wf(),
    ensures
        ({
            let (r1, d1) = data_directory_outcome(root, d);
            let (r2, d2) = data_directory_outcome(root, d1);
            &&& r2 == r1
            &&& d2 == d1
            &&& match root {
                Some(p) => !blocked(d, p.segments) ==> d1.dirs.contains(p.segments),
                None => true,
            }
        }),
{
    match root {
        None => {},
        Some(p) => {
            if !blocked(d, p.segments) {
                let segs = p.segments;
                let d1 = provisioned(d, segs);
                assert(d1.files == d.files);
                assert(!blocked(d1, segs));
                assert(provisioned(d1, segs).dirs =~= d1.dirs);
                assert(provisioned(d1, segs) =~= d1);
                assert(segs.subrange(0, segs.len() as int) =~= segs);
                assert(ancestors(segs).contains(segs));
            }
        },
    }
}

/// The templates operation resolves the same root and appends the fixed
/// child segment: it succeeds only where the data operation would, its path
/// is the data path extended with one separator and the segment, and the
/// child directory exists afterwards.
pub proof fn lemma_templates_extends_data_directory(root: Option<PathView>, d: DiskView)
    requires
        d.wf(),
        root matches Some(p) ==> p.wf(),
    ensures
        ({
            let (r1, d1) = data_directory_outcome(root, d);
            let (r2, d2) = templates_directory_outcome(root, d);
            &&& r2 is Ok ==> r1 is Ok
            &&& (r1 is Ok && r2 is Ok ==> r2->Ok_0 == r1->Ok_0 + seq!['/'] + templates_segment())
            &&& match root {
                Some(p) => r2 is Ok ==> d2.dirs.contains(p.segments.push(templates_segment())),
                None => true,
            }
        }),
{
    match root {
        None => {},
        Some(p) => {
            let segs = p.segments;
            let child = segs.push(templates_segment());
            assert forall|i: int|
                1 <= i <= segs.len() implies #[trigger] child.subrange(0, i) == segs.subrange(
                0,
                i,
            ) by {
                assert(child.subrange(0, i) =~= segs.subrange(0, i));
            };
            if blocked(d, segs) {
                let i = choose|i: int|
                    1 <= i <= segs.len() && d.files.contains(#[trigger] segs.subrange(0, i));
                assert(d.files.contains(child.subrange(0, i)));
                assert(blocked(d, child));
            }
            if !blocked(d, child) && p.representable {
                assert(child.drop_last() =~= segs);
                assert(child.last() == templates_segment());
                assert(path_text(child) == path_text(segs) + seq!['/'] + templates_segment());
                assert(child.subrange(0, child.len() as int) =~= child);
                assert(ancestors(child).contains(child));
            }
        },
    }
}

/// Recursive creation: after a data-directory call whose chain nothing
/// blocks, every ancestor of the root, the root itself included, exists as a
/// directory.
pub proof fn lemma_data_directory_creates_ancestors(p: PathView, d: DiskView)
    requires
        d.wf(),
        p.wf(),
        !blocked(d, p.segments),
    ensures
        ({
            let (r1, d1) = data_directory_outcome(Some(p), d);
            forall|i: int|
                1 <= i <= p.segments.len() ==> d1.dirs.contains(
                    #[trigger] p.segments.subrange(0, i),
                )
        }),
{
    let (r1, d1) = data_directory_outcome(Some(p), d);
    assert forall|i: int| 1 <= i <= p.segments.len() implies d1.dirs.contains(
        #[trigger] p.segments.subrange(0, i),
    ) by {
        assert(ancestors(p.segments).contains(p.segments.subrange(0, i)));
    };
}

/// A non-directory entry at the exact target path makes the data-directory
/// operation fail with the directory-creation error, and the disk — the
/// conflicting entry included — is left untouched.
pub proof fn lemma_file_conflict_fails(p: PathView, d: DiskView)
    requires
        d.wf(),
        p.wf(),
        d.files.contains(p.segments),
    ensures
        ({
            let (r1, d1) = data_directory_outcome(Some(p), d);
            &&& r1 == Err::<Seq<char>, ErrorKind>(ErrorKind::DirectoryCreationFailed)
            &&& d1 == d
            &&& d1.files.contains(p.segments)
        }),
{
    let segs = p.segments;
    assert(segs.subrange(0, segs.len() as int) =~= segs);
    assert(blocked(d, segs));
}

/// Two callers racing over a fresh chain: whichever of the two operations
/// runs first, both succeed, and the two interleavings leave one and the
/// same disk, where the root and its child each exist as one directory —
/// the benign race never surfaces as a failure.
pub proof fn lemma_concurrent_provisioning_benign(p: PathView, d: DiskView)
    requires
        d.wf(),
        p.wf(),
        p.representable,
        !blocked(d, p.segments.push(templates_segment())),
    ensures
        ({
            let (r1, d1) = data_directory_outcome(Some(p), d);
            let (r2, d2) = templates_directory_outcome(Some(p), d1);
            let (s1, e1) = templates_directory_outcome(Some(p), d);
            let (s2, e2) = data_directory_outcome(Some(p), e1);
            &&& r1 is Ok
            &&& r2 is Ok
            &&& s1 is Ok
            &&& s2 is Ok
            &&& d2 == e2
            &&& d2.dirs.contains(p.segments)
            &&& d2.dirs.contains(p.segments.push(templates_segment()))
        }),
{
    let segs = p.segments;
    let child = segs.push(templates_segment());
    assert forall|i: int|
        1 <= i <= segs.len() implies #[trigger] child.subrange(0, i) == segs.subrange(0, i) by {
        assert(child.subrange(0, i) =~= segs.subrange(0, i));
    };
    assert(!blocked(d, segs)) by {
        if blocked(d, segs) {
            let i = choose|i: int|
                1 <= i <= segs.len() && d.files.contains(#[trigger] segs.subrange(0, i));
            assert(d.files.contains(child.subrange(0, i)));
        }
    }
    let d1 = provisioned(d, segs);
    let e1 = provisioned(d, child);
    assert(!blocked(d1, child));
    assert(!blocked(e1, segs));
    let d2 = provisioned(d1, child);
    let e2 = provisioned(e1, segs);
    assert(d2.dirs =~= e2.dirs);
    assert(d2 =~= e2);
    assert(segs.subrange(0, segs.len() as int) =~= segs);
    assert(ancestors(segs).contains(segs));
    assert(child.subrange(0, child.len() as int) =~= child);
    assert(ancestors(child).contains(child));
}

} // verus!
