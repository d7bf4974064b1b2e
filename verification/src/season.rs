use vstd::prelude::*;

use crate::Status;
use crate::snapshot::{FileSnapshot, FileinfoView, find_last, last_pos, lemma_last_pos};

verus! {

/// The decimal digit character for `d`.
pub open spec fn digit_char(d: nat) -> char {
    if d == 0 {
        '0'
    } else if d == 1 {
        '1'
    } else if d == 2 {
        '2'
    } else if d == 3 {
        '3'
    } else if d == 4 {
        '4'
    } else if d == 5 {
        '5'
    } else if d == 6 {
        '6'
    } else if d == 7 {
        '7'
    } else if d == 8 {
        '8'
    } else {
        '9'
    }
}

/// The decimal digits of `n`, most significant first, with no leading zero
/// (a single `0` for zero itself).
pub open spec fn dec_digits(n: nat) -> Seq<char>
    decreases n,
{
    if n < 10 {
        seq![digit_char(n)]
    } else {
        dec_digits(n / 10).push(digit_char(n % 10))
    }
}

/// `k` zero characters.
pub open spec fn zeroes(k: nat) -> Seq<char> {
    Seq::new(k, |i: int| '0')
}

/// The decimal digits of `n`, left-padded with zeroes to width `w`.
pub open spec fn padded(n: nat, w: nat) -> Seq<char> {
    if dec_digits(n).len() >= w {
        dec_digits(n)
    } else {
        zeroes((w - dec_digits(n).len()) as nat) + dec_digits(n)
    }
}

/// Appends one decimal digit character.
fn append_digit(out: &mut String, d: u32)
    requires
        d < 10,
    ensures
        final(out)@ == old(out)@ + seq![digit_char(d as nat)],
{
    proof {
        reveal_strlit("0");
        reveal_strlit("1");
        reveal_strlit("2");
        reveal_strlit("3");
        reveal_strlit("4");
        reveal_strlit("5");
        reveal_strlit("6");
        reveal_strlit("7");
        reveal_strlit("8");
        reveal_strlit("9");
    }
    match d {
        0 => out.append("0"),
        1 => out.append("1"),
        2 => out.append("2"),
        3 => out.append("3"),
        4 => out.append("4"),
        5 => out.append("5"),
        6 => out.append("6"),
        7 => out.append("7"),
        8 => out.append("8"),
        _ => out.append("9"),
    }
    proof {
        assert(final(out)@ =~= old(out)@ + seq![digit_char(d as nat)]);
    }
}

/// The digit values of `vals`, read back to front, as characters.
spec fn rev_chars(vals: Seq<u32>) -> Seq<char> {
    Seq::new(vals.len(), |i: int| digit_char(vals[vals.len() - 1 - i] as nat))
}

/// Appends `num` in decimal, left-padded with zeroes to `width` digits.
#[verifier::loop_isolation(false)]
fn push_padded(out: &mut String, num: u32, width: usize)
    ensures
        final(out)@ == old(out)@ + padded(num as nat, width as nat),
{
    let mut vals: Vec<u32> = Vec::new();
    let mut m = num;
    proof {
        assert(dec_digits(num as nat) =~= dec_digits(m as nat) + rev_chars(vals@));
    }
    while m >= 10
        invariant
            dec_digits(num as nat) == dec_digits(m as nat) + rev_chars(vals@),
            forall|k: int| 0 <= k < vals@.len() ==> vals@[k] < 10,
        decreases m,
    {
        let d = m % 10;
        let ghost old_vals = vals@;
        let ghost old_m = m;
        vals.push(d);
        m = m / 10;
        proof {
            assert(dec_digits(old_m as nat) == dec_digits(m as nat).push(
                digit_char((old_m % 10) as nat),
            ));
            assert(dec_digits(m as nat).push(digit_char(d as nat)) + rev_chars(old_vals)
                =~= dec_digits(m as nat) + rev_chars(vals@));
        }
    }
    let ghost old_vals = vals@;
    vals.push(m);
    proof {
        assert(dec_digits(m as nat) == seq![digit_char(m as nat)]);
        assert(seq![digit_char(m as nat)] + rev_chars(old_vals) =~= rev_chars(vals@));
        assert(dec_digits(num as nat) =~= rev_chars(vals@));
        assert(dec_digits(num as nat).len() == vals@.len());
    }
    let dcount = vals.len();
    let pad: usize = if width > dcount {
        width - dcount
    } else {
        0
    };
    let ghost mid = old(out)@ + zeroes(pad as nat);
    let mut z: usize = pad;
    proof {
        reveal_strlit("0");
        assert(out@ =~= old(out)@ + zeroes((pad - z) as nat));
    }
    while z > 0
        invariant
            z <= pad,
            out@ == old(out)@ + zeroes((pad - z) as nat),
        decreases z,
    {
        out.append("0");
        z = z - 1;
        proof {
            assert(out@ =~= old(out)@ + zeroes((pad - z) as nat));
        }
    }
    proof {
        assert(out@ =~= mid);
    }
    let mut k = vals.len();
    proof {
        assert(out@ =~= mid + rev_chars(vals@).take(vals@.len() - k));
    }
    while k > 0
        invariant
            k <= vals@.len(),
            forall|j: int| 0 <= j < vals@.len() ==> vals@[j] < 10,
            out@ == mid + rev_chars(vals@).take(vals@.len() - k),
        decreases k,
    {
        k = k - 1;
        append_digit(out, vals[k]);
        proof {
            assert(rev_chars(vals@)[vals@.len() - 1 - k] == digit_char(vals@[k as int] as nat));
            assert(out@ =~= mid + rev_chars(vals@).take(vals@.len() - k));
        }
    }
    proof {
        assert(rev_chars(vals@).take(vals@.len() as int) =~= rev_chars(vals@));
        assert(out@ =~= old(out)@ + zeroes(pad as nat) + dec_digits(num as nat));
        assert(old(out)@ + zeroes(pad as nat) + dec_digits(num as nat) =~= old(out)@ + (zeroes(
            pad as nat,
        ) + dec_digits(num as nat)));
        assert(zeroes(0) =~= Seq::<char>::empty());
        if pad == 0 {
            assert(zeroes(pad as nat) + dec_digits(num as nat) =~= dec_digits(num as nat));
        }
        assert(out@ =~= old(out)@ + padded(num as nat, width as nat));
    }
}

/// What a template prefix of length `i` produces: the output written so
/// far, and how long the still-pending run of `X` placeholders is.
pub open spec fn adapt_state(t: Seq<char>, i: int, n: nat) -> (Seq<char>, nat)
    decreases i,
{
    if i <= 0 {
        (Seq::empty(), 0nat)
    } else {
        let prev = adapt_state(t, i - 1, n);
        if t[i - 1] == 'X' {
            (prev.0, prev.1 + 1)
        } else {
            (prev.0 + flush(n, prev.1) + seq![t[i - 1]], 0nat)
        }
    }
}

/// What a pending run of `run` placeholders produces: the number padded to
/// the run's width, or nothing when no placeholder is pending.
pub open spec fn flush(n: nat, run: nat) -> Seq<char> {
    if run == 0 {
        Seq::empty()
    } else {
        padded(n, run)
    }
}

/// The season directory name for season `n`: the template with every
/// maximal run of `X` characters replaced by `n` in decimal, left-padded
/// with zeroes to the width of the run.
pub open spec fn adapt_spec(t: Seq<char>, n: nat) -> Seq<char> {
    adapt_state(t, t.len() as int, n).0 + flush(n, adapt_state(t, t.len() as int, n).1)
}

/// Builds the season directory name from the configured template:
/// every maximal run of `X` characters is replaced by `season_number` in
/// decimal, left-padded with zeroes to the width of the run; every other
/// character is kept as it stands.
#[verifier::loop_isolation(false)]
pub fn adapt_season_name(season_name: &str, season_number: u32) -> (r: String)
    ensures
        r@ == adapt_spec(season_name@, season_number as nat),
{
    let n = season_name.unicode_len();
    let mut result = String::new();
    let mut run: usize = 0;
    let mut i: usize = 0;
    while i < n
        invariant
            i <= n,
            run <= i,
            result@ == adapt_state(season_name@, i as int, season_number as nat).0,
            run as nat == adapt_state(season_name@, i as int, season_number as nat).1,
        decreases n - i,
    {
        let c = season_name.get_char(i);
        if c == 'X' {
            run = run + 1;
        } else {
            if run > 0 {
                push_padded(&mut result, season_number, run);
                run = 0;
            }
            let piece = season_name.substring_char(i, i + 1);
            result.append(piece);
            proof {
                assert(piece@ =~= seq![season_name@[i as int]]);
                assert(result@ =~= adapt_state(season_name@, i + 1, season_number as nat).0);
            }
        }
        i = i + 1;
    }
    if run > 0 {
        push_padded(&mut result, season_number, run);
    }
    proof {
        assert(result@ =~= adapt_spec(season_name@, season_number as nat));
    }
    result
}

/// Whether `c` is a decimal digit.
pub open spec fn is_digit(c: char) -> bool {
    48 <= c as u32 <= 57
}

/// The value of the digit `c`.
pub open spec fn digit_val(c: char) -> nat {
    (c as u32 - 48) as nat
}

/// Whether every character of `s` is a decimal digit.
pub open spec fn all_digits(s: Seq<char>) -> bool {
    forall|i: int| 0 <= i < s.len() ==> is_digit(#[trigger] s[i])
}

/// The number the digit string `s` denotes.
pub open spec fn seq_digits_val(s: Seq<char>) -> nat
    decreases s.len(),
{
    if s.len() == 0 {
        0
    } else {
        seq_digits_val(s.drop_last()) * 10 + digit_val(s.last())
    }
}

/// Whether `s` is a nonempty digit string whose value fits a `u32`.
pub open spec fn parsable_u32(s: Seq<char>) -> bool {
    s.len() > 0 && all_digits(s) && seq_digits_val(s) <= u32::MAX
}

proof fn lemma_prefix_val_le(s: Seq<char>, j: int)
    requires
        0 <= j <= s.len(),
    ensures
        seq_digits_val(s.take(j)) <= seq_digits_val(s),
    decreases s.len() - j,
{
    if j < s.len() {
        lemma_prefix_val_le(s, j + 1);
        assert(s.take(j + 1).drop_last() =~= s.take(j));
        assert(seq_digits_val(s.take(j + 1)) == seq_digits_val(s.take(j)) * 10 + digit_val(
            s.take(j + 1).last(),
        ));
        assert(seq_digits_val(s.take(j)) * 10 >= seq_digits_val(s.take(j))) by (nonlinear_arith);
    } else {
        assert(s.take(j) =~= s);
    }
}

/// Reads a season number: the digit string's value, if `s` is a nonempty
/// string of decimal digits whose value fits; nothing otherwise.
#[verifier::loop_isolation(false)]
pub fn parse_u32(s: &str) -> (r: Option<u32>)
    ensures
        r is Some <==> parsable_u32(s@),
        r is Some ==> r->Some_0 == seq_digits_val(s@),
{
    let n = s.unicode_len();
    if n == 0 {
        return None;
    }
    let mut val: u32 = 0;
    let mut i: usize = 0;
    proof {
        assert(s@.take(0) =~= Seq::<char>::empty());
    }
    while i < n
        invariant
            i <= n,
            all_digits(s@.take(i as int)),
            val == seq_digits_val(s@.take(i as int)),
        decreases n - i,
    {
        let c = s.get_char(i);
        let cv = c as u32;
        proof {
            assert(s@.take(i + 1).drop_last() =~= s@.take(i as int));
            assert(s@.take(i + 1).last() == s@[i as int]);
        }
        if cv < 48 || cv > 57 {
            proof {
                assert(!is_digit(s@[i as int]));
            }
            return None;
        }
        let d = cv - 48;
        if val > (u32::MAX - d) / 10 {
            proof {
                assert(val * 10 + d > u32::MAX) by (nonlinear_arith)
                    requires
                        val > (u32::MAX - d) / 10,
                        d <= 9,
                ;
                assert(seq_digits_val(s@.take(i + 1)) > u32::MAX);
                lemma_prefix_val_le(s@, i + 1);
            }
            return None;
        }
        proof {
            assert(val * 10 + d <= u32::MAX) by (nonlinear_arith)
                requires
                    val <= (u32::MAX - d) / 10,
                    d <= 9,
            ;
        }
        val = val * 10 + d;
        i = i + 1;
    }
    proof {
        assert(s@.take(n as int) =~= s@);
    }
    Some(val)
}

/// The directory that holds the entry at path `s`: empty when `s` has no
/// separator, the root itself when the last separator is the first
/// character, and everything before the last separator otherwise.
pub open spec fn parent_of(s: Seq<char>) -> Seq<char> {
    let lp = last_pos(s, '/');
    if lp < 0 {
        Seq::empty()
    } else if lp == 0 {
        seq!['/']
    } else {
        s.subrange(0, lp)
    }
}

/// The base name of the entry at path `s`: everything after the last
/// separator, or all of `s` when it has none.
pub open spec fn name_of(s: Seq<char>) -> Seq<char> {
    s.subrange(last_pos(s, '/') + 1, s.len() as int)
}

/// The path of the entry named `name` inside the directory `dir`.
pub open spec fn join_under(dir: Seq<char>, name: Seq<char>) -> Seq<char> {
    if dir.len() == 0 {
        name
    } else if dir.last() == '/' {
        dir + name
    } else {
        dir + seq!['/'] + name
    }
}

/// Where the file at `path` belongs when its season directory is named
/// `sname`: under that directory, inside the file's present parent.
pub open spec fn move_target(path: Seq<char>, sname: Seq<char>) -> Seq<char> {
    join_under(join_under(parent_of(path), sname), name_of(path))
}

/// Whether the file at `path` with season text `season` already sits in
/// its season directory under the template `t`.
pub open spec fn placed(path: Seq<char>, t: Seq<char>, season: Seq<char>) -> bool {
    name_of(parent_of(path)) == adapt_spec(t, seq_digits_val(season))
}

fn parent_of_exec(s: &String) -> (r: String)
    ensures
        r@ == parent_of(s@),
{
    proof {
        lemma_last_pos(s@, '/');
    }
    match find_last(s.as_str(), '/') {
        None => String::new(),
        Some(j) => {
            if j == 0 {
                let r = String::from_str("/");
                proof {
                    reveal_strlit("/");
                    assert(r@ =~= seq!['/']);
                }
                r
            } else {
                String::from_str(s.as_str().substring_char(0, j))
            }
        },
    }
}

fn name_of_exec(s: &String) -> (r: String)
    ensures
        r@ == name_of(s@),
{
    proof {
        lemma_last_pos(s@, '/');
    }
    let n = s.as_str().unicode_len();
    match find_last(s.as_str(), '/') {
        None => {
            let r = s.clone();
            proof {
                assert(s@.subrange(0, s@.len() as int) =~= s@);
            }
            r
        },
        Some(j) => String::from_str(s.as_str().substring_char(j + 1, n)),
    }
}

fn join_under_exec(dir: &String, name: &String) -> (r: String)
    ensures
        r@ == join_under(dir@, name@),
{
    let dlen = dir.as_str().unicode_len();
    if dlen == 0 {
        return name.clone();
    }
    let lastc = dir.as_str().get_char(dlen - 1);
    let mut r = dir.clone();
    if lastc != '/' {
        r.append("/");
        proof {
            reveal_strlit("/");
            assert(r@ =~= dir@ + seq!['/']);
        }
    }
    r.append(name.as_str());
    proof {
        if lastc != '/' {
            assert(r@ =~= dir@ + seq!['/'] + name@);
        }
    }
    r
}

/// One planned relocation: the file at `from` is to be moved to `to`
/// (creating `to`'s directory first if it does not exist yet).
pub struct FileMove {
    pub from: String,
    pub to: String,
}

/// Spec-level value of a `FileMove`.
#[verifier::ext_equal]
pub struct FileMoveView {
    pub from: Seq<char>,
    pub to: Seq<char>,
}

impl View for FileMove {
    type V = FileMoveView;

    open spec fn view(&self) -> FileMoveView {
        FileMoveView { from: self.from@, to: self.to@ }
    }
}

impl DeepView for FileMove {
    type V = FileMoveView;

    open spec fn deep_view(&self) -> FileMoveView {
        self.view()
    }
}

/// What one season pass over a directory decides: the relocations to
/// perform, and the status to report — `Error` when some file's season
/// text is not a readable number, `Unchanged` when every file already
/// sits in its season directory, `FilesChanged` otherwise.
pub struct SeasonPlan {
    pub moves: Vec<FileMove>,
    pub status: Status,
}

/// The files of the snapshot that are not in their season directory yet.
pub open spec fn unplaced(t: Seq<char>) -> spec_fn((Seq<char>, FileinfoView)) -> bool {
    |e: (Seq<char>, FileinfoView)| !placed(e.0, t, e.1.season)
}

/// The relocation a not-yet-placed file gets.
pub open spec fn move_of(t: Seq<char>) -> spec_fn((Seq<char>, FileinfoView)) -> FileMoveView {
    |e: (Seq<char>, FileinfoView)|
        FileMoveView { from: e.0, to: move_target(e.0, adapt_spec(t, seq_digits_val(e.1.season))) }
}

/// Whether some file of the snapshot has a season text that is not a
/// readable number.
pub open spec fn any_unparsable(snap: Seq<(Seq<char>, FileinfoView)>) -> bool {
    exists|i: int| 0 <= i < snap.len() && !parsable_u32(#[trigger] snap[i].1.season)
}

/// Plans the season reorganization of one directory from its snapshot:
/// every file not yet inside the season directory its season number names
/// (under the configured template) is to be moved there; files already in
/// place are left alone.  No filesystem work happens here — the caller
/// performs the moves and owes a `FilesChanged` signal when there are any.
#[verifier::loop_isolation(false)]
pub fn plan_seasonize(snap: &FileSnapshot, season_dir_name: &String) -> (plan: SeasonPlan)
    ensures
        (plan.status == Status::Error) == any_unparsable(snap@),
        plan.status == Status::Error ==> plan.moves@.len() == 0,
        plan.status != Status::Error ==> plan.moves.deep_view() == snap@.filter(
            unplaced(season_dir_name@),
        ).map_values(move_of(season_dir_name@)),
        plan.status == Status::Unchanged <==> (!any_unparsable(snap@) && snap@.filter(
            unplaced(season_dir_name@),
        ).len() == 0),
{
    broadcast use vstd::seq_lib::group_filter_ensures;

    let ghost pred = unplaced(season_dir_name@);
    let ghost f = move_of(season_dir_name@);
    let mut i: usize = 0;
    while i < snap.entries.len()
        invariant
            i <= snap@.len(),
            forall|j: int| 0 <= j < i ==> parsable_u32(#[trigger] snap@[j].1.season),
        decreases snap@.len() - i,
    {
        let entry = &snap.entries[i];
        if parse_u32(entry.1.season.as_str()).is_none() {
            proof {
                assert(!parsable_u32(snap@[i as int].1.season));
            }
            return SeasonPlan { moves: Vec::new(), status: Status::Error };
        }
        i = i + 1;
    }
    let mut moves: Vec<FileMove> = Vec::new();
    let mut k: usize = 0;
    proof {
        assert(snap@.take(0) =~= Seq::<(Seq<char>, FileinfoView)>::empty());
        reveal_with_fuel(Seq::filter, 1);
        assert(moves.deep_view() =~= snap@.take(0).filter(pred).map_values(f));
    }
    while k < snap.entries.len()
        invariant
            k <= snap@.len(),
            forall|j: int| 0 <= j < snap@.len() ==> parsable_u32(#[trigger] snap@[j].1.season),
            moves.deep_view() == snap@.take(k as int).filter(pred).map_values(f),
        decreases snap@.len() - k,
    {
        let ghost prefix = snap@.take(k as int);
        let ghost next_prefix = snap@.take(k + 1);
        proof {
            assert(next_prefix.drop_last() =~= prefix);
            assert(next_prefix.last() == snap@[k as int]);
        }
        let entry = &snap.entries[k];
        let season_number = match parse_u32(entry.1.season.as_str()) {
            Some(v) => v,
            None => {
                proof {
                    assert(snap@[k as int].1.season == entry.1.season@);
                    assert(parsable_u32(entry.1.season@));
                    assert(false);
                }
                0
            },
        };
        let sname = adapt_season_name(season_dir_name.as_str(), season_number);
        let parent = parent_of_exec(&entry.0);
        let parent_name = name_of_exec(&parent);
        let is_placed = parent_name == sname;
        proof {
            let ghost e = snap@[k as int];
            assert(is_placed == placed(e.0, season_dir_name@, e.1.season));
        }
        if !is_placed {
            let fname = name_of_exec(&entry.0);
            let season_dir = join_under_exec(&parent, &sname);
            let target = join_under_exec(&season_dir, &fname);
            moves.push(FileMove { from: entry.0.clone(), to: target });
        }
        proof {
            reveal_with_fuel(Seq::filter, 2);
            if !is_placed {
                assert(next_prefix.filter(pred) == prefix.filter(pred).push(next_prefix.last()));
                assert(next_prefix.filter(pred).map_values(f) =~= prefix.filter(pred).map_values(
                    f,
                ).push(f(next_prefix.last())));
                assert(moves.deep_view().last() == f(snap@[k as int]));
                assert(moves.deep_view() =~= prefix.filter(pred).map_values(f).push(
                    f(next_prefix.last()),
                ));
            } else {
                assert(next_prefix.filter(pred) == prefix.filter(pred));
                assert(moves.deep_view() =~= next_prefix.filter(pred).map_values(f));
            }
        }
        k = k + 1;
    }
    proof {
        assert(snap@.take(snap@.len() as int) =~= snap@);
    }
    let status = if moves.len() == 0 {
        Status::Unchanged
    } else {
        Status::FilesChanged
    };
    SeasonPlan { moves, status }
}

/// A mutating season pass is idempotent at the boundary: on a snapshot
/// whose files all already sit in their season directory, the pass plans
/// no relocation, so it reports `Unchanged` instead of mutating again.
pub proof fn lemma_seasonize_idempotent(snap: FileSnapshot, t: Seq<char>)
    requires
        forall|i: int|
            0 <= i < snap@.len() ==> placed(#[trigger] snap@[i].0, t, snap@[i].1.season),
    ensures
        snap@.filter(unplaced(t)).len() == 0,
{
    let pred = unplaced(t);
    assert forall|e: (Seq<char>, FileinfoView)| snap@.contains(e) implies !pred(e) by {
        let j = choose|j: int| 0 <= j < snap@.len() && snap@[j] == e;
        assert(placed(snap@[j].0, t, snap@[j].1.season));
    }
    assert(snap@.all(|e: (Seq<char>, FileinfoView)| !pred(e)));
    snap@.lemma_all_neg_filter_empty(pred);
}

} // verus!
