use vstd::prelude::*;

verus! {

/// Spec-level value of a directory path: whether it is absolute, and its
/// components.
#[verifier::ext_equal]
pub struct PathView {
    pub absolute: bool,
    pub segments: Seq<Seq<char>>,
}

/// A directory path kept component-wise, so that two paths are equal
/// exactly when they have the same components (not when their raw texts
/// are equal character for character).
pub struct DirPath {
    pub absolute: bool,
    pub segments: Vec<String>,
}

impl View for DirPath {
    type V = PathView;

    open spec fn view(&self) -> PathView {
        PathView { absolute: self.absolute, segments: self.segments.deep_view() }
    }
}

impl DeepView for DirPath {
    type V = PathView;

    open spec fn deep_view(&self) -> PathView {
        self.view()
    }
}

/// Index just past the end of the separator-free run that starts at `i`.
pub open spec fn seg_end(s: Seq<char>, i: int) -> int
    decreases s.len() - i,
{
    if i < 0 || i >= s.len() || s[i] == '/' {
        i
    } else {
        seg_end(s, i + 1)
    }
}

pub proof fn lemma_seg_end(s: Seq<char>, i: int)
    requires
        0 <= i <= s.len(),
    ensures
        i <= seg_end(s, i) <= s.len(),
        i < s.len() && s[i] != '/' ==> i < seg_end(s, i),
    decreases s.len() - i,
{
    if i < s.len() && s[i] != '/' {
        lemma_seg_end(s, i + 1);
    }
}

/// The components of the path text `s` from position `i` on: the maximal
/// nonempty runs of characters between `/` separators.
pub open spec fn split_from(s: Seq<char>, i: int) -> Seq<Seq<char>>
    decreases s.len() - i, 0int via split_from_decreases
{
    if i < 0 || i >= s.len() {
        Seq::empty()
    } else if s[i] == '/' {
        split_from(s, i + 1)
    } else {
        seq![s.subrange(i, seg_end(s, i))] + split_from(s, seg_end(s, i))
    }
}

#[via_fn]
proof fn split_from_decreases(s: Seq<char>, i: int) {
    if 0 <= i < s.len() && s[i] != '/' {
        lemma_seg_end(s, i);
    }
}

/// Whether `p` is the parsed form of the path text `s`.
pub open spec fn parses_to(s: Seq<char>, p: PathView) -> bool {
    &&& p.absolute == (s.len() > 0 && s[0] == '/')
    &&& p.segments == split_from(s, 0)
}

/// Position just past the end of the separator-free run starting at `from`.
fn find_seg_end(s: &str, from: usize) -> (end: usize)
    requires
        from <= s@.len(),
    ensures
        end == seg_end(s@, from as int),
        from <= end <= s@.len(),
{
    let n = s.unicode_len();
    let mut j = from;
    while j < n && s.get_char(j) != '/'
        invariant
            from <= j <= n,
            n == s@.len(),
            seg_end(s@, from as int) == seg_end(s@, j as int),
        decreases n - j,
    {
        j = j + 1;
    }
    proof {
        lemma_seg_end(s@, j as int);
    }
    j
}

/// Splits the path text `s`, from position `from` on, into components.
pub(crate) fn parse_segments(s: &str, from: usize) -> (v: Vec<String>)
    requires
        from <= s@.len(),
    ensures
        v.deep_view() == split_from(s@, from as int),
    decreases s@.len() - from,
{
    let n = s.unicode_len();
    if from >= n {
        let v: Vec<String> = Vec::new();
        proof {
            assert(v.deep_view() =~= split_from(s@, from as int));
        }
        v
    } else if s.get_char(from) == '/' {
        parse_segments(s, from + 1)
    } else {
        let end = find_seg_end(s, from);
        proof {
            lemma_seg_end(s@, from as int);
        }
        let seg = s.substring_char(from, end);
        let seg_string = String::from_str(seg);
        let mut v = parse_segments(s, end);
        v.insert(0, seg_string);
        proof {
            assert(v.deep_view() =~= split_from(s@, from as int));
        }
        v
    }
}

/// Parses a raw path text into its component-wise form.
pub fn parse_path(s: &str) -> (p: DirPath)
    ensures
        parses_to(s@, p@),
{
    let n = s.unicode_len();
    let absolute = n > 0 && s.get_char(0) == '/';
    let segments = parse_segments(s, 0);
    DirPath { absolute, segments }
}

/// Component-wise path equality.
pub fn path_eq(a: &DirPath, b: &DirPath) -> (r: bool)
    ensures
        r == (a@ == b@),
{
    if a.absolute != b.absolute {
        proof {
            assert(a@.absolute != b@.absolute);
        }
        return false;
    }
    if a.segments.len() != b.segments.len() {
        proof {
            assert(a@.segments.len() != b@.segments.len());
        }
        return false;
    }
    let mut i: usize = 0;
    while i < a.segments.len()
        invariant
            0 <= i <= a.segments.len(),
            a.segments.len() == b.segments.len(),
            a.absolute == b.absolute,
            forall|j: int| 0 <= j < i ==> a@.segments[j] == b@.segments[j],
        decreases a.segments.len() - i,
    {
        if !(a.segments[i] == b.segments[i]) {
            proof {
                assert(a@.segments[i as int] != b@.segments[i as int]);
            }
            return false;
        }
        i = i + 1;
    }
    proof {
        assert(a@.segments =~= b@.segments);
        assert(a@ =~= b@);
    }
    true
}

/// A copy of `p` with the same components.
pub fn clone_path(p: &DirPath) -> (r: DirPath)
    ensures
        r@ == p@,
{
    let mut segments: Vec<String> = Vec::new();
    let mut i: usize = 0;
    while i < p.segments.len()
        invariant
            0 <= i <= p.segments.len(),
            segments@.len() == i,
            forall|j: int| 0 <= j < i ==> segments@[j] == p.segments@[j],
        decreases p.segments.len() - i,
    {
        segments.push(p.segments[i].clone());
        i = i + 1;
    }
    proof {
        assert(segments.deep_view() =~= p.segments.deep_view());
    }
    let r = DirPath { absolute: p.absolute, segments };
    proof {
        assert(r@ =~= p@);
    }
    r
}

/// The path of a child entry named `name` directly under `p`.
pub open spec fn child_view(p: PathView, name: Seq<char>) -> PathView {
    PathView { absolute: p.absolute, segments: p.segments.push(name) }
}

/// Builds the path of the child named `name` directly under `p`.
pub fn child_path(p: &DirPath, name: &String) -> (r: DirPath)
    ensures
        r@ == child_view(p@, name@),
{
    let mut r = clone_path(p);
    r.segments.push(name.clone());
    proof {
        assert(r@.segments =~= p@.segments.push(name@));
        assert(r@ =~= child_view(p@, name@));
    }
    r
}

} // verus!
