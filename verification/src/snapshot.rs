use vstd::prelude::*;

verus! {

/// What is recorded about one file of a directory listing.  The name
/// parts are left for a later filename parser to populate; only the
/// extension is filled in today.
pub struct Fileinfo {
    pub showname: String,
    pub season: String,
    pub episode: String,
    pub extension: String,
}

/// Spec-level value of a `Fileinfo`.
#[verifier::ext_equal]
pub struct FileinfoView {
    pub showname: Seq<char>,
    pub season: Seq<char>,
    pub episode: Seq<char>,
    pub extension: Seq<char>,
}

impl View for Fileinfo {
    type V = FileinfoView;

    open spec fn view(&self) -> FileinfoView {
        FileinfoView {
            showname: self.showname@,
            season: self.season@,
            episode: self.episode@,
            extension: self.extension@,
        }
    }
}

impl DeepView for Fileinfo {
    type V = FileinfoView;

    open spec fn deep_view(&self) -> FileinfoView {
        self.view()
    }
}

/// A point-in-time mapping from file path to file metadata for one
/// directory.  It is built when the directory's tasks start, rebuilt after
/// every mutation, and discarded when the directory's task list finishes.
pub struct FileSnapshot {
    pub entries: Vec<(String, Fileinfo)>,
}

impl View for FileSnapshot {
    type V = Seq<(Seq<char>, FileinfoView)>;

    open spec fn view(&self) -> Seq<(Seq<char>, FileinfoView)> {
        self.entries.deep_view()
    }
}

/// One raw directory entry as the directory reader hands it over: the
/// entry's path and whether it is a plain file.
pub struct RawEntry {
    pub path: String,
    pub is_file: bool,
}

/// Spec-level value of a `RawEntry`.
#[verifier::ext_equal]
pub struct RawEntryView {
    pub path: Seq<char>,
    pub is_file: bool,
}

impl View for RawEntry {
    type V = RawEntryView;

    open spec fn view(&self) -> RawEntryView {
        RawEntryView { path: self.path@, is_file: self.is_file }
    }
}

impl DeepView for RawEntry {
    type V = RawEntryView;

    open spec fn deep_view(&self) -> RawEntryView {
        self.view()
    }
}

/// The largest position of `c` in `s`, or `-1` if `s` does not hold `c`.
pub open spec fn last_pos(s: Seq<char>, c: char) -> int
    decreases s.len(),
{
    if s.len() == 0 {
        -1
    } else if s[s.len() - 1] == c {
        s.len() - 1
    } else {
        last_pos(s.drop_last(), c)
    }
}

pub proof fn lemma_last_pos(s: Seq<char>, c: char)
    ensures
        -1 <= last_pos(s, c) < s.len(),
        last_pos(s, c) >= 0 ==> s[last_pos(s, c)] == c,
    decreases s.len(),
{
    if s.len() > 0 && s[s.len() - 1] != c {
        lemma_last_pos(s.drop_last(), c);
    }
}

/// The extension of the file at path `s`: what follows the last `.` of
/// the file's own name, provided that dot is not the name's first
/// character; nothing otherwise.
pub open spec fn extension_of(s: Seq<char>) -> Option<Seq<char>> {
    let name_start = last_pos(s, '/') + 1;
    let dot = last_pos(s, '.');
    if dot > name_start {
        Some(s.subrange(dot + 1, s.len() as int))
    } else {
        None
    }
}

/// The largest position of `c` in `s`, if any.
pub(crate) fn find_last(s: &str, c: char) -> (r: Option<usize>)
    ensures
        match r {
            Some(j) => j == last_pos(s@, c),
            None => last_pos(s@, c) == -1,
        },
{
    let mut j = s.unicode_len();
    proof {
        assert(s@.take(j as int) =~= s@);
    }
    while j > 0
        invariant
            j <= s@.len(),
            last_pos(s@, c) == last_pos(s@.take(j as int), c),
        decreases j,
    {
        j = j - 1;
        proof {
            assert(s@.take(j + 1).drop_last() =~= s@.take(j as int));
            assert(s@.take(j + 1)[j as int] == s@[j as int]);
        }
        if s.get_char(j) == c {
            return Some(j);
        }
    }
    proof {
        assert(s@.take(0) =~= Seq::<char>::empty());
    }
    None
}

/// The extension of the file at path `s`, as `extension_of` gives it.
pub fn extension_of_exec(s: &str) -> (r: Option<String>)
    ensures
        r.deep_view() == extension_of(s@),
{
    let n = s.unicode_len();
    proof {
        lemma_last_pos(s@, '/');
        lemma_last_pos(s@, '.');
    }
    let name_start: usize = match find_last(s, '/') {
        Some(j) => j + 1,
        None => 0,
    };
    let dot = find_last(s, '.');
    match dot {
        Some(d) => {
            if d > name_start {
                let ext = s.substring_char(d + 1, n);
                Some(String::from_str(ext))
            } else {
                None
            }
        },
        None => None,
    }
}

/// Whether some string of `list` reads `s`.
pub open spec fn string_in_spec(list: Seq<Seq<char>>, s: Seq<char>) -> bool {
    exists|i: int| 0 <= i < list.len() && list[i] == s
}

pub(crate) fn string_in(list: &Vec<String>, s: &String) -> (r: bool)
    ensures
        r == string_in_spec(list.deep_view(), s@),
{
    let mut i: usize = 0;
    while i < list.len()
        invariant
            0 <= i <= list@.len(),
            forall|j: int| 0 <= j < i ==> list@[j]@ != s@,
        decreases list@.len() - i,
    {
        if list[i] == *s {
            proof {
                assert(list.deep_view()[i as int] == s@);
            }
            return true;
        }
        i = i + 1;
    }
    false
}

/// Whether a raw entry belongs in the snapshot: it is a plain file whose
/// extension is on the video list or on the image list.
pub open spec fn keeps(e: RawEntryView, vexts: Seq<Seq<char>>, iexts: Seq<Seq<char>>) -> bool {
    e.is_file && match extension_of(e.path) {
        Some(ext) => string_in_spec(vexts, ext) || string_in_spec(iexts, ext),
        None => false,
    }
}

/// The snapshot record of a kept entry: its path, with only the extension
/// of its metadata populated.
pub open spec fn entry_record(e: RawEntryView) -> (Seq<char>, FileinfoView) {
    (
        e.path,
        FileinfoView {
            showname: Seq::empty(),
            season: Seq::empty(),
            episode: Seq::empty(),
            extension: extension_of(e.path)->Some_0,
        },
    )
}

/// The snapshot built from a raw directory listing.
pub open spec fn snapshot_spec(
    entries: Seq<RawEntryView>,
    vexts: Seq<Seq<char>>,
    iexts: Seq<Seq<char>>,
) -> Seq<(Seq<char>, FileinfoView)> {
    entries.filter(|e: RawEntryView| keeps(e, vexts, iexts)).map_values(
        |e: RawEntryView| entry_record(e),
    )
}

/// Builds the snapshot of one directory from its raw listing: exactly the
/// plain files whose extension is on one of the two configured lists are
/// recorded, in listing order, each under its own path.  An unreadable
/// directory hands in an empty listing and so yields an empty snapshot.
#[verifier::loop_isolation(false)]
pub fn build_snapshot(
    entries: &Vec<RawEntry>,
    video_extensions: &Vec<String>,
    image_extensions: &Vec<String>,
) -> (snap: FileSnapshot)
    ensures
        snap@ == snapshot_spec(
            entries.deep_view(),
            video_extensions.deep_view(),
            image_extensions.deep_view(),
        ),
{
    broadcast use vstd::seq_lib::group_filter_ensures;

    let ghost pred = |e: RawEntryView|
        keeps(e, video_extensions.deep_view(), image_extensions.deep_view());
    let mut out: Vec<(String, Fileinfo)> = Vec::new();
    let mut i: usize = 0;
    proof {
        assert(entries.deep_view().take(0) =~= Seq::<RawEntryView>::empty());
        reveal_with_fuel(Seq::filter, 1);
        assert(out.deep_view() =~= entries.deep_view().take(0).filter(pred).map_values(
            |e: RawEntryView| entry_record(e),
        ));
    }
    while i < entries.len()
        invariant
            0 <= i <= entries@.len(),
            out.deep_view() == entries.deep_view().take(i as int).filter(pred).map_values(
                |e: RawEntryView| entry_record(e),
            ),
        decreases entries@.len() - i,
    {
        let ghost prefix = entries.deep_view().take(i as int);
        let ghost next_prefix = entries.deep_view().take(i + 1);
        proof {
            assert(next_prefix.drop_last() =~= prefix);
            assert(next_prefix.last() == entries.deep_view()[i as int]);
        }
        let entry = &entries[i];
        let mut kept = false;
        if entry.is_file {
            match extension_of_exec(entry.path.as_str()) {
                Some(ext) => {
                    if string_in(video_extensions, &ext) || string_in(image_extensions, &ext) {
                        let info = Fileinfo {
                            showname: String::new(),
                            season: String::new(),
                            episode: String::new(),
                            extension: ext,
                        };
                        out.push((entry.path.clone(), info));
                        kept = true;
                    }
                },
                None => {
                },
            }
        }
        proof {
            reveal_with_fuel(Seq::filter, 2);
            let f = |e: RawEntryView| entry_record(e);
            assert(kept == pred(entries.deep_view()[i as int]));
            if kept {
                assert(next_prefix.filter(pred) == prefix.filter(pred).push(next_prefix.last()));
                assert(next_prefix.filter(pred).map_values(f) =~= prefix.filter(pred).map_values(
                    f,
                ).push(entry_record(next_prefix.last())));
                assert(out.deep_view().last() == entry_record(entries.deep_view()[i as int]));
                assert(out.deep_view() =~= prefix.filter(pred).map_values(f).push(
                    entry_record(next_prefix.last()),
                ));
            } else {
                assert(next_prefix.filter(pred) == prefix.filter(pred));
                assert(out.deep_view() =~= next_prefix.filter(pred).map_values(f));
            }
        }
        i = i + 1;
    }
    proof {
        assert(entries.deep_view().take(entries@.len() as int) =~= entries.deep_view());
    }
    FileSnapshot { entries: out }
}

} // verus!
