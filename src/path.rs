use vstd::prelude::*;
use crate::error::ApiError;

verus! {

/// The segments of a path, as character sequences.
pub open spec fn segs(v: Seq<String>) -> Seq<Seq<char>> {
    v.map_values(|s: String| s@)
}

/// A segment that could direct a write outside the destination root: a
/// parent-directory step, a name that smuggles a separator (either slash),
/// or one that starts with a drive prefix such as `C:`.
pub open spec fn is_unsafe_segment(s: Seq<char>) -> bool {
    ||| s == seq!['.', '.']
    ||| s.contains('/')
    ||| s.contains('\\')
    ||| (s.len() >= 2 && s[1] == ':')
}

/// The segments of a path grow by one when a segment is pushed.
pub proof fn lemma_segs_push(v: Seq<String>, x: String)
    ensures
        segs(v.push(x)) == segs(v).push(x@),
{
    assert(segs(v.push(x)) =~= segs(v).push(x@));
}

/// A path none of whose segments is unsafe.
pub open spec fn is_safe_path(p: Seq<Seq<char>>) -> bool {
    forall|i: int| 0 <= i < p.len() ==> !is_unsafe_segment(#[trigger] p[i])
}

/// A root content identifier, in its textual form, and the segments to walk
/// below it.
#[derive(Clone, Debug, PartialEq, Eq)]
pub struct ContentPath {
    pub root: String,
    pub segments: Vec<String>,
}

impl ContentPath {
    /// The segments below the root, as character sequences.
    pub open spec fn segments_view(&self) -> Seq<Seq<char>> {
        segs(self.segments@)
    }

    /// A path that addresses a root identifier directly.
    pub fn from_root(root: String) -> (r: ContentPath)
        ensures
            r.root@ == root@,
            r.segments@.len() == 0,
    {
        ContentPath { root, segments: Vec::new() }
    }

    /// Whether two paths have the same root and the same segments.
    pub fn same_as(&self, other: &ContentPath) -> (r: bool)
        ensures
            r == (self.root@ == other.root@ && self.segments_view() == other.segments_view()),
    {
        if self.root != other.root || self.segments.len() != other.segments.len() {
            proof {
                if self.segments@.len() != other.segments@.len() {
                    assert(self.segments_view().len() != other.segments_view().len());
                }
            }
            return false;
        }
        let mut i: usize = 0;
        while i < self.segments.len()
            invariant
                self.segments@.len() == other.segments@.len(),
                0 <= i <= self.segments@.len(),
                forall|j: int| 0 <= j < i ==> self.segments@[j]@ == other.segments@[j]@,
            decreases self.segments@.len() - i,
        {
            if self.segments[i] != other.segments[i] {
                proof {
                    assert(self.segments_view()[i as int] != other.segments_view()[i as int]);
                }
                return false;
            }
            i = i + 1;
        }
        proof {
            assert(self.segments_view() =~= other.segments_view());
        }
        true
    }
}

/// The directory under which the output of a request is placed: the explicit
/// root when one is given, else the request's last segment, else the text of
/// its root identifier.
pub open spec fn destination_root(
    request: ContentPath,
    output: Option<Seq<Seq<char>>>,
) -> Seq<Seq<char>> {
    match output {
        Some(o) => o,
        None => if request.segments@.len() > 0 {
            seq![request.segments_view().last()]
        } else {
            seq![request.root@]
        },
    }
}

/// The segments of an optional explicit output root.
pub open spec fn opt_segs(output: Option<Vec<String>>) -> Option<Seq<Seq<char>>> {
    match output {
        Some(o) => Some(segs(o@)),
        None => None,
    }
}

/// The destination root is safe: given explicitly by the caller, or derived
/// from a segment that stays within the working directory.
pub open spec fn root_is_safe(request: ContentPath, output: Option<Seq<Seq<char>>>) -> bool {
    output is Some || is_safe_path(destination_root(request, output))
}

/// Where a unit at relative path `rel` lands; refused when the path, or a
/// derived destination root, would leave where it belongs.
pub open spec fn output_path(
    rel: Seq<Seq<char>>,
    request: ContentPath,
    output: Option<Seq<Seq<char>>>,
) -> Result<Seq<Seq<char>>, ApiError> {
    if is_safe_path(rel) && root_is_safe(request, output) {
        Ok(destination_root(request, output) + rel)
    } else {
        Err(ApiError::UnsafePath)
    }
}

/// A copy of a path, segment by segment.
pub fn clone_path(v: &Vec<String>) -> (r: Vec<String>)
    ensures
        segs(r@) == segs(v@),
{
    let mut r: Vec<String> = Vec::new();
    let mut i: usize = 0;
    while i < v.len()
        invariant
            0 <= i <= v@.len(),
            segs(r@) == segs(v@.subrange(0, i as int)),
        decreases v@.len() - i,
    {
        let ghost prev = r@;
        r.push(v[i].clone());
        proof {
            lemma_segs_push(prev, v@[i as int]);
            assert(v@.subrange(0, i + 1) =~= v@.subrange(0, i as int).push(v@[i as int]));
            lemma_segs_push(v@.subrange(0, i as int), v@[i as int]);
        }
        i = i + 1;
    }
    proof {
        assert(v@.subrange(0, v@.len() as int) =~= v@);
    }
    r
}

/// Whether a segment could direct a write outside the destination root.
pub fn unsafe_segment(s: &String) -> (r: bool)
    ensures
        r == is_unsafe_segment(s@),
{
    let t = s.as_str();
    let n = t.unicode_len();
    if n == 2 && t.get_char(0) == '.' && t.get_char(1) == '.' {
        proof {
            assert(s@ =~= seq!['.', '.']);
        }
        return true;
    }
    if n >= 2 && t.get_char(1) == ':' {
        return true;
    }
    let mut i: usize = 0;
    while i < n
        invariant
            n == s@.len(),
            t@ == s@,
            0 <= i <= n,
            forall|j: int| 0 <= j < i ==> s@[j] != '/' && s@[j] != '\\',
        decreases n - i,
    {
        let c = t.get_char(i);
        if c == '/' || c == '\\' {
            proof {
                assert(s@[i as int] == c);
            }
            return true;
        }
        i = i + 1;
    }
    proof {
        if s@ == seq!['.', '.'] {
            assert(s@[0] == '.' && s@[1] == '.');
        }
    }
    false
}

/// Computes where a resolved unit at relative path `rel` is written, for a
/// request and an optional explicit output root. Any parent-directory
/// segment, segment holding a separator, or drive prefix is refused.
pub fn make_output_path(
    rel: &Vec<String>,
    request: &ContentPath,
    output: &Option<Vec<String>>,
) -> (r: Result<Vec<String>, ApiError>)
    ensures
        match (r, output_path(segs(rel@), *request, opt_segs(*output))) {
            (Ok(p), Ok(q)) => segs(p@) == q,
            (Err(e), Err(f)) => e == f,
            _ => false,
        },
{
    let mut i: usize = 0;
    while i < rel.len()
        invariant
            0 <= i <= rel@.len(),
            forall|j: int| 0 <= j < i ==> !is_unsafe_segment(#[trigger] segs(rel@)[j]),
        decreases rel@.len() - i,
    {
        if unsafe_segment(&rel[i]) {
            proof {
                assert(is_unsafe_segment(segs(rel@)[i as int]));
            }
            return Err(ApiError::UnsafePath);
        }
        i = i + 1;
    }
    let mut out: Vec<String> = match output {
        Some(o) => clone_path(o),
        None => {
            let mut d: Vec<String> = Vec::new();
            if request.segments.len() > 0 {
                d.push(request.segments[request.segments.len() - 1].clone());
            } else {
                d.push(request.root.clone());
            }
            proof {
                assert(segs(d@) =~= destination_root(*request, opt_segs(*output)));
            }
            if unsafe_segment(&d[0]) {
                proof {
                    assert(segs(d@)[0] == d@[0]@);
                    assert(is_unsafe_segment(segs(d@)[0]));
                }
                return Err(ApiError::UnsafePath);
            }
            proof {
                assert forall|i: int| 0 <= i < segs(d@).len() implies !is_unsafe_segment(#[trigger] segs(d@)[i]) by {
                    assert(i == 0);
                }
            }
            d
        },
    };
    let ghost base = segs(out@);
    let mut k: usize = 0;
    while k < rel.len()
        invariant
            0 <= k <= rel@.len(),
            segs(out@) == base + segs(rel@.subrange(0, k as int)),
        decreases rel@.len() - k,
    {
        let ghost prev = out@;
        out.push(rel[k].clone());
        proof {
            lemma_segs_push(prev, rel@[k as int]);
            lemma_segs_push(rel@.subrange(0, k as int), rel@[k as int]);
            assert(rel@.subrange(0, k + 1) =~= rel@.subrange(0, k as int).push(rel@[k as int]));
            assert(segs(out@) =~= base + segs(rel@.subrange(0, k + 1)));
        }
        k = k + 1;
    }
    proof {
        assert(rel@.subrange(0, rel@.len() as int) =~= rel@);
        assert(is_safe_path(segs(rel@)));
    }
    Ok(out)
}

} // verus!
