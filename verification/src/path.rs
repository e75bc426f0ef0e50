use vstd::prelude::*;

verus! {

/// A path segment is valid when it is nonempty and contains no separator.
pub open spec fn seg_wf(s: Seq<char>) -> bool {
    &&& s.len() > 0
    &&& forall|i: int| 0 <= i < s.len() ==> s[i] != '/'
}

/// Every segment of the sequence is valid.
pub open spec fn segments_wf(segs: Seq<Seq<char>>) -> bool {
    forall|i: int| 0 <= i < segs.len() ==> seg_wf(#[trigger] segs[i])
}

/// The mathematical value of an absolute path: its segments, and whether the
/// platform's original form of the path can be rendered as text.
#[verifier::ext_equal]
pub struct PathView {
    pub segments: Seq<Seq<char>>,
    pub representable: bool,
}

impl PathView {
    /// A well-formed absolute path names at least one valid segment.
    pub open spec fn wf(self) -> bool {
        &&& self.segments.len() > 0
        &&& segments_wf(self.segments)
    }

    /// The path one segment deeper; it is textual exactly when its parent is.
    pub open spec fn child(self, seg: Seq<char>) -> PathView {
        PathView { segments: self.segments.push(seg), representable: self.representable }
    }
}

/// The text of an absolute path: a separator before each segment.
pub open spec fn path_text(segs: Seq<Seq<char>>) -> Seq<char>
    decreases segs.len(),
{
    if segs.len() == 0 {
        Seq::empty()
    } else {
        path_text(segs.drop_last()) + seq!['/'] + segs.last()
    }
}

/// The segment sequences named by a list of segment strings.
pub open spec fn segs_of(p: Vec<String>) -> Seq<Seq<char>> {
    p@.map_values(|s: String| s@)
}

/// An absolute filesystem location owned by the application, held as the
/// sequence of its path segments. `representable` records whether the
/// platform's original form of the path has a valid textual rendering; the
/// segments themselves stand for the platform's own encoding of the names.
pub struct AppPath {
    segments: Vec<String>,
    representable: bool,
}

impl View for AppPath {
    type V = PathView;

    closed spec fn view(&self) -> PathView {
        PathView { segments: segs_of(self.segments), representable: self.representable }
    }
}

impl AppPath {
    /// Builds a path from its segments, validating each one; `representable`
    /// states whether the platform's form of the path has a textual rendering.
    pub fn from_segments(segments: Vec<String>, representable: bool) -> (r: Option<AppPath>)
        ensures
            match r {
                Some(p) => {
                    &&& p@ == (PathView { segments: segs_of(segments), representable })
                    &&& p@.wf()
                },
                None => !(PathView { segments: segs_of(segments), representable }).wf(),
            },
    {
        if segments.len() == 0 {
            return None;
        }
        let mut i: usize = 0;
        while i < segments.len()
            invariant
                0 <= i <= segments.len(),
                forall|k: int| 0 <= k < i ==> seg_wf(#[trigger] segs_of(segments)[k]),
            decreases segments.len() - i,
        {
            if !segment_is_valid(&segments[i]) {
                proof {
                    assert(segs_of(segments)[i as int] == segments[i as int]@);
                }
                return None;
            }
            proof {
                assert(segs_of(segments)[i as int] == segments[i as int]@);
            }
            i += 1;
        }
        Some(AppPath { segments, representable })
    }

    /// Whether the platform's form of this path can be rendered as text.
    pub fn is_representable(&self) -> (r: bool)
        ensures
            r == self@.representable,
    {
        self.representable
    }

    /// The segments of the path, shallowest first.
    pub fn segments(&self) -> (r: &Vec<String>)
        ensures
            segs_of(*r) == self@.segments,
    {
        &self.segments
    }

    /// The path one segment deeper, under the given child name.
    pub fn join(&self, seg: &str) -> (r: AppPath)
        requires
            seg_wf(seg@),
        ensures
            r@ == self@.child(seg@),
            self@.wf() ==> r@.wf(),
    {
        let mut segments = self.segments.clone();
        proof {
            assert(segs_of(segments) =~= segs_of(self.segments));
        }
        segments.push(String::from_str(seg));
        let r = AppPath { segments, representable: self.representable };
        proof {
            assert(r@.segments =~= self@.segments.push(seg@));
        }
        r
    }

    /// The textual form of the path, when the platform's form has one.
    pub fn to_text(&self) -> (r: Option<String>)
        ensures
            match r {
                Some(s) => self@.representable && s@ == path_text(self@.segments),
                None => !self@.representable,
            },
    {
        if !self.representable {
            return None;
        }
        let mut out = String::new();
        let mut i: usize = 0;
        while i < self.segments.len()
            invariant
                0 <= i <= self.segments.len(),
                out@ == path_text(self@.segments.subrange(0, i as int)),
            decreases self.segments.len() - i,
        {
            proof {
                reveal_strlit("/");
                assert("/"@ =~= seq!['/']);
            }
            out.append("/");
            out.append(self.segments[i].as_str());
            proof {
                let segs = self@.segments;
                let pre = segs.subrange(0, i + 1);
                assert(pre.drop_last() =~= segs.subrange(0, i as int));
                assert(pre.last() == segs[i as int]);
            }
            i += 1;
        }
        proof {
            assert(self@.segments.subrange(0, self.segments.len() as int) =~= self@.segments);
        }
        Some(out)
    }
}

/// A valid segment: nonempty text with no separator character.
fn segment_is_valid(s: &String) -> (r: bool)
    ensures
        r == seg_wf(s@),
{
    let n = s.as_str().unicode_len();
    if n == 0 {
        return false;
    }
    let mut j: usize = 0;
    while j < n
        invariant
            n == s@.len(),
            0 <= j <= n,
            forall|k: int| 0 <= k < j ==> s@[k] != '/',
        decreases n - j,
    {
        if s.as_str().get_char(j) == '/' {
            return false;
        }
        j += 1;
    }
    true
}

} // verus!
