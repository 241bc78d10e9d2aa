//! Settings, and where files lie.

use crate::text::{
    chars_of, decimal, digit_value, digits_value, lemma_decimal_digits, lemma_decimal_value,
    is_space, law_digits_follow_each_other, law_white_space_is_cut_off, opt_text, padded,
    padded_decimal, repeated, text_of, trim_text, trimmed,
};
use vstd::prelude::*;
use vstd::string::*;

verus! {

// ----------------------------------------------------------------------- paths

/// How paths are written on a platform.
#[derive(Clone, Copy, Debug, PartialEq, Eq, Structural)]
pub enum PathStyle {
    Unix,
    Windows,
}

impl PathStyle {
    /// The separator that is put between names.
    pub open spec fn separator(self) -> char {
        match self {
            PathStyle::Unix => '/',
            PathStyle::Windows => '\\',
        }
    }

    /// How the names in `path` are told apart.
    pub open spec fn rules(self, path: Seq<char>) -> PathRules {
        match self {
            PathStyle::Unix => PathRules::Unix,
            PathStyle::Windows => if is_verbatim(self, path) {
                PathRules::Verbatim
            } else {
                PathRules::Windows
            },
        }
    }

    fn main_separator(&self) -> (c: char)
        ensures
            c == self.separator(),
    {
        match self {
            PathStyle::Unix => '/',
            PathStyle::Windows => '\\',
        }
    }

    fn rules_for(&self, chars: &Vec<char>) -> (rules: PathRules)
        ensures
            rules == self.rules(chars@),
    {
        match self {
            PathStyle::Unix => PathRules::Unix,
            PathStyle::Windows => if chars.len() >= 4 && chars[0] == '\\' && chars[1] == '\\'
                && chars[2] == '?' && chars[3] == '\\' {
                PathRules::Verbatim
            } else {
                PathRules::Windows
            },
        }
    }

    /// The style of a platform that puts `c` between names.
    pub open spec fn of_separator(c: char) -> PathStyle {
        if c == '\\' {
            PathStyle::Windows
        } else {
            PathStyle::Unix
        }
    }

    /// Gives the style of a platform that puts `c` between names.
    pub fn with_separator(c: char) -> (style: PathStyle)
        ensures
            style == PathStyle::of_separator(c),
            c == '/' || c == '\\' ==> style.separator() == c,
    {
        if c == '\\' {
            PathStyle::Windows
        } else {
            PathStyle::Unix
        }
    }

    /// The style of the platform that the program runs on: what
    /// [`PathStyle::with_separator`] gives for its separator, which differs between
    /// platforms.
    pub(crate) fn current() -> PathStyle {
        PathStyle::with_separator(platform_separator())
    }
}

/// How the names in a path are told apart.
#[derive(Clone, Copy, Debug, PartialEq, Eq, Structural)]
pub enum PathRules {
    Unix,
    Windows,
    /// Those of a path on Windows that starts with `\\?\`: it is taken as it is written.
    Verbatim,
}

impl PathRules {
    /// Whether `c` separates names.
    pub open spec fn separates(self, c: char) -> bool {
        match self {
            PathRules::Unix => c == '/',
            PathRules::Windows => c == '/' || c == '\\',
            PathRules::Verbatim => c == '\\',
        }
    }

    /// Whether the name `.` means "here".
    pub open spec fn knows_here(self) -> bool {
        self != PathRules::Verbatim
    }

    fn is_separator(&self, c: char) -> (found: bool)
        ensures
            found == self.separates(c),
    {
        match self {
            PathRules::Unix => c == '/',
            PathRules::Windows => c == '/' || c == '\\',
            PathRules::Verbatim => c == '\\',
        }
    }
}

/// Whether a path starts with `\\?\` on Windows.
pub open spec fn is_verbatim(style: PathStyle, path: Seq<char>) -> bool {
    style == PathStyle::Windows && path.len() >= 4 && path[0] == '\\' && path[1] == '\\' && path[2]
        == '?' && path[3] == '\\'
}

/// Reads the constant `std::path::MAIN_SEPARATOR`. It differs between platforms, so
/// that nothing is stated of it.
#[verifier::external_body]
fn platform_separator() -> char {
    std::path::MAIN_SEPARATOR
}

/// Whether `name` can be put below any directory: it has no separator of any platform
/// and names no drive.
pub open spec fn is_plain(name: Seq<char>) -> bool {
    forall|i: int|
        0 <= i < name.len() ==> #[trigger] name[i] != '/' && name[i] != '\\' && name[i] != ':'
}

/// The letter of the drive that `path` starts with, in upper case.
pub open spec fn drive_of(style: PathStyle, path: Seq<char>) -> Option<u32> {
    if style == PathStyle::Windows && path.len() >= 2 && path[1] == ':' {
        let letter = path[0] as u32;
        if 65 <= letter <= 90 {
            Some(letter)
        } else if 97 <= letter <= 122 {
            Some((letter - 32) as u32)
        } else {
            None
        }
    } else {
        None
    }
}

/// Whether `path` is a drive without a directory, such as `C:`.
pub open spec fn is_drive(style: PathStyle, path: Seq<char>) -> bool {
    drive_of(style, path) is Some && path.len() == 2
}

/// The letter of the drive that `path` is on, in upper case: it starts with the drive, or
/// with `\\?\` and a drive as its first name.
pub open spec fn drive_in(style: PathStyle, path: Seq<char>) -> Option<u32> {
    if is_verbatim(style, path) {
        let rest = path.skip(4);
        if rest.len() == 2 || (rest.len() > 2 && rest[2] == '\\') {
            drive_of(style, rest)
        } else {
            None
        }
    } else {
        drive_of(style, path)
    }
}

/// Where a path goes on after its drive.
pub open spec fn drive_len(style: PathStyle, path: Seq<char>) -> int {
    if drive_in(style, path) is None {
        0
    } else if is_verbatim(style, path) {
        6
    } else {
        2
    }
}

fn read_drive(style: PathStyle, chars: &Vec<char>, from: usize) -> (drive: Option<u32>)
    requires
        from <= chars.len(),
    ensures
        drive == drive_of(style, chars@.skip(from as int)),
        drive is Some ==> chars.len() - from >= 2,
{
    let ghost rest = chars@.skip(from as int);
    if style == PathStyle::Windows && chars.len() - from >= 2 && chars[from + 1] == ':' {
        assert(rest[1] == chars@[from + 1]);
        let letter: u32 = chars[from] as u32;
        if 65 <= letter && letter <= 90 {
            return Some(letter);
        }
        if 97 <= letter && letter <= 122 {
            return Some(letter - 32);
        }
    }
    assert(rest.len() > 1 ==> rest[1] == chars@[from + 1]);
    None
}

fn find_drive(style: PathStyle, chars: &Vec<char>) -> (drive: Option<u32>)
    ensures
        drive == drive_in(style, chars@),
        drive is Some ==> drive_len(style, chars@) <= chars.len(),
{
    if style.rules_for(chars) == PathRules::Verbatim {
        let ghost rest = chars@.skip(4);
        assert(rest.len() > 2 ==> rest[2] == chars@[6]);
        if chars.len() == 6 || (chars.len() > 6 && chars[6] == '\\') {
            return read_drive(style, chars, 4);
        }
        return None;
    }
    assert(chars@.skip(0) =~= chars@);
    read_drive(style, chars, 0)
}

/// The path of `name` in the directory `base`.
pub open spec fn joined(style: PathStyle, base: Seq<char>, name: Seq<char>) -> Seq<char> {
    if base.len() == 0 || style.rules(base).separates(base.last()) || is_drive(style, base) {
        base + name
    } else {
        base.push(style.separator()) + name
    }
}

fn put_below(style: PathStyle, base: &str, name: &str) -> (path: String)
    ensures
        path@ == joined(style, base@, name@),
{
    let chars = chars_of(base);
    let len: usize = chars.len();
    let mut path = base.to_owned();
    assert(chars@.skip(0) =~= chars@);
    if len > 0 && !style.rules_for(&chars).is_separator(chars[len - 1]) && !(len == 2 && read_drive(
        style,
        &chars,
        0,
    ).is_some()) {
        path.push(style.main_separator());
    }
    path.append(name);
    path
}

/// Gives the path of `name` in the directory `base`.
pub fn join_path(style: PathStyle, base: &str, name: &str) -> (path: String)
    requires
        is_plain(name@),
    ensures
        path@ == joined(style, base@, name@),
{
    put_below(style, base, name)
}

/// The position of the first separator, or the length of the path.
pub open spec fn name_end(rules: PathRules, path: Seq<char>) -> int
    decreases path.len(),
{
    if path.len() == 0 || rules.separates(path[0]) {
        0
    } else {
        1 + name_end(rules, path.skip(1))
    }
}

proof fn lemma_name_end(rules: PathRules, path: Seq<char>)
    ensures
        0 <= name_end(rules, path) <= path.len(),
        path.len() > 0 && !rules.separates(path[0]) ==> name_end(rules, path) >= 1,
    decreases path.len(),
{
    if path.len() > 0 && !rules.separates(path[0]) {
        lemma_name_end(rules, path.skip(1));
    }
}

fn end_of_name(rules: PathRules, chars: &Vec<char>, from: usize) -> (to: usize)
    requires
        from <= chars.len(),
    ensures
        from <= to <= chars.len(),
        to - from == name_end(rules, chars@.skip(from as int)),
{
    let mut to: usize = from;
    while to < chars.len() && !rules.is_separator(chars[to])
        invariant
            from <= to <= chars.len(),
            name_end(rules, chars@.skip(from as int)) == to - from + name_end(
                rules,
                chars@.skip(to as int),
            ),
        decreases chars.len() - to,
    {
        assert(chars@.skip(to as int).skip(1) =~= chars@.skip(to + 1));
        to += 1;
    }
    to
}

/// Whether a path starts with a separator.
pub open spec fn is_rooted(rules: PathRules, path: Seq<char>) -> bool {
    path.len() > 0 && rules.separates(path[0])
}

/// Whether a path starts with the name of a server and a share, such as `\\server\share`.
pub open spec fn is_network(style: PathStyle, path: Seq<char>) -> bool {
    let rules = PathRules::Windows;
    let names = path.skip(2);
    let server = name_end(rules, names);
    &&& style == PathStyle::Windows && !is_verbatim(style, path)
    &&& path.len() >= 2 && rules.separates(path[0]) && rules.separates(path[1])
    &&& 0 < server < names.len()
    &&& name_end(rules, names.skip(server + 1)) > 0
}

/// Whether a path says where it lies, whatever the current directory is.
pub open spec fn is_absolute(style: PathStyle, path: Seq<char>) -> bool {
    match style {
        PathStyle::Unix => is_rooted(PathRules::Unix, path),
        PathStyle::Windows => {
            ||| drive_of(style, path) is Some && is_rooted(PathRules::Windows, path.skip(2))
            ||| is_network(style, path)
            ||| is_verbatim(style, path)
        },
    }
}

fn names_share(style: PathStyle, chars: &Vec<char>) -> (found: bool)
    ensures
        found == is_network(style, chars@),
{
    let rules = PathRules::Windows;
    if style.rules_for(chars) != rules || chars.len() < 2 || !rules.is_separator(chars[0])
        || !rules.is_separator(chars[1]) {
        return false;
    }
    let ghost names = chars@.skip(2);
    let end: usize = end_of_name(rules, chars, 2);
    if end == 2 || end == chars.len() {
        return false;
    }
    assert(names.skip(end - 1) =~= chars@.skip(end + 1));
    end_of_name(rules, chars, end + 1) > end + 1
}

/// Tells whether a path says where it lies, whatever the current directory is.
pub fn is_absolute_path(style: PathStyle, path: &str) -> (absolute: bool)
    ensures
        absolute == is_absolute(style, path@),
{
    let chars = chars_of(path);
    assert(chars@.skip(0) =~= chars@);
    match style.rules_for(&chars) {
        PathRules::Unix => root_at(PathRules::Unix, &chars, 0),
        PathRules::Windows => {
            (read_drive(style, &chars, 0).is_some() && root_at(PathRules::Windows, &chars, 2))
                || names_share(style, &chars)
        },
        PathRules::Verbatim => true,
    }
}

proof fn lemma_longer_name_end(rules: PathRules, path: Seq<char>, more: Seq<char>)
    ensures
        name_end(rules, path) <= name_end(rules, path + more),
        name_end(rules, path) < path.len() ==> name_end(rules, path + more) == name_end(
            rules,
            path,
        ),
    decreases path.len(),
{
    lemma_name_end(rules, path + more);
    if path.len() > 0 && !rules.separates(path[0]) {
        assert((path + more).skip(1) =~= path.skip(1) + more);
        lemma_longer_name_end(rules, path.skip(1), more);
    }
}

/// What lies below an absolute path is absolute.
proof fn lemma_longer_is_absolute(style: PathStyle, path: Seq<char>, more: Seq<char>)
    ensures
        is_absolute(style, path) ==> is_absolute(style, path + more),
        is_network(style, path) ==> is_network(style, path + more),
        is_verbatim(style, path) ==> is_verbatim(style, path + more),
        drive_of(style, path) is Some ==> drive_of(style, path + more) == drive_of(style, path),
{
    let whole = path + more;
    let rules = PathRules::Windows;
    assert(path.len() >= 1 ==> whole[0] == path[0]);
    assert(path.len() >= 2 ==> whole[1] == path[1]);
    assert(path.len() >= 2 ==> whole.skip(2) =~= path.skip(2) + more);
    assert(path.len() >= 3 ==> whole.skip(2)[0] == path.skip(2)[0]);
    assert(path.len() >= 4 ==> whole[2] == path[2] && whole[3] == path[3]);
    if is_network(style, path) {
        let names = path.skip(2);
        let server = name_end(rules, names);
        lemma_longer_name_end(rules, names, more);
        lemma_name_end(rules, names.skip(server + 1));
        assert(path.len() >= 4);
        assert((names + more).skip(server + 1) =~= names.skip(server + 1) + more);
        lemma_longer_name_end(rules, names.skip(server + 1), more);
    }
}

proof fn lemma_joined_is_absolute(style: PathStyle, base: Seq<char>, name: Seq<char>)
    requires
        is_absolute(style, base),
    ensures
        is_absolute(style, joined(style, base, name)),
{
    lemma_longer_is_absolute(style, base, name);
    lemma_longer_is_absolute(style, base, seq![style.separator()] + name);
    assert(base.push(style.separator()) + name =~= base + (seq![style.separator()] + name));
}

/// Whether the first name of a path means "here".
pub open spec fn starts_here(rules: PathRules, path: Seq<char>) -> bool {
    rules.knows_here() && path.len() > 0 && path[0] == '.' && (path.len() == 1 || rules.separates(
        path[1],
    ))
}

/// A path without the separators, and the names that mean "here", at its start.
pub open spec fn without_lead(rules: PathRules, path: Seq<char>) -> Seq<char>
    decreases path.len(),
{
    if is_rooted(rules, path) || starts_here(rules, path) {
        without_lead(rules, path.skip(1))
    } else {
        path
    }
}

/// A path without the separators, and the names that mean "here", at its end.
pub open spec fn without_tail(rules: PathRules, path: Seq<char>) -> Seq<char>
    decreases path.len(),
{
    if path.len() > 0 && (rules.separates(path.last()) || (rules.knows_here() && path.last() == '.' && (
    path.len() == 1 || rules.separates(path[path.len() - 2])))) {
        without_tail(rules, path.drop_last())
    } else {
        path
    }
}

/// A path without its drive that keeps its root, or the name that means "here", at its
/// start, and has no separators or such names at its end.
pub open spec fn with_start(rules: PathRules, path: Seq<char>) -> Seq<char> {
    if is_rooted(rules, path) || starts_here(rules, path) {
        path.take(1) + without_tail(rules, path.skip(1))
    } else {
        without_tail(rules, path)
    }
}

proof fn lemma_without_lead(rules: PathRules, path: Seq<char>)
    ensures
        without_lead(rules, path).len() <= path.len(),
        without_lead(rules, path).len() > 0 ==> !rules.separates(without_lead(rules, path)[0]),
        without_lead(rules, path).len() > 0 ==> without_lead(rules, path).last() == path.last(),
    decreases path.len(),
{
    if is_rooted(rules, path) || starts_here(rules, path) {
        lemma_without_lead(rules, path.skip(1));
    }
}

/// What `path` is, seen from `base`, when both go on from the same place: the names that
/// remain when the names of `base` are taken off its start. Nothing where `path` does not
/// lie below `base`.
pub open spec fn names_below(rules: PathRules, path: Seq<char>, base: Seq<char>) -> Option<Seq<char>>
    decreases base.len(),
    via names_below_decreases
{
    let p = without_lead(rules, path);
    let b = without_lead(rules, base);
    if b.len() == 0 {
        Some(without_tail(rules, p))
    } else if p.take(name_end(rules, p)) == b.take(name_end(rules, b)) {
        names_below(rules, p.skip(name_end(rules, p)), b.skip(name_end(rules, b)))
    } else {
        None
    }
}

#[via_fn]
proof fn names_below_decreases(rules: PathRules, path: Seq<char>, base: Seq<char>) {
    let b = without_lead(rules, base);
    lemma_without_lead(rules, base);
    lemma_name_end(rules, b);
}

/// What `path` is, seen from `base`; nothing where it does not lie below `base`. The
/// letter of a drive may be written in either case.
pub open spec fn path_below(style: PathStyle, path: Seq<char>, base: Seq<char>) -> Option<Seq<char>> {
    let rules = style.rules(path);
    let drive = drive_len(style, path);
    let p = path.skip(drive);
    let b = base.skip(drive_len(style, base));
    if base.len() == 0 {
        Some(path.take(drive) + with_start(rules, p))
    } else if rules != style.rules(base) || drive_in(style, path) != drive_in(style, base) {
        None
    } else if b.len() == 0 {
        Some(with_start(rules, p))
    } else if is_network(style, path) != is_network(style, base) || is_rooted(rules, p)
        != is_rooted(rules, b) || starts_here(rules, p) != starts_here(rules, b) {
        None
    } else {
        names_below(rules, p, b)
    }
}

fn skip_lead(rules: PathRules, chars: &Vec<char>, from: usize) -> (to: usize)
    requires
        from <= chars.len(),
    ensures
        from <= to <= chars.len(),
        without_lead(rules, chars@.skip(from as int)) == chars@.skip(to as int),
{
    let mut to: usize = from;
    while root_at(rules, chars, to) || here_at(rules, chars, to)
        invariant
            from <= to <= chars.len(),
            without_lead(rules, chars@.skip(from as int)) == without_lead(
                rules,
                chars@.skip(to as int),
            ),
        decreases chars.len() - to,
    {
        assert(chars@.skip(to as int).skip(1) =~= chars@.skip(to + 1));
        to += 1;
    }
    to
}

fn root_at(rules: PathRules, chars: &Vec<char>, from: usize) -> (found: bool)
    requires
        from <= chars.len(),
    ensures
        found == is_rooted(rules, chars@.skip(from as int)),
        found ==> from < chars.len(),
{
    from < chars.len() && rules.is_separator(chars[from])
}

fn here_at(rules: PathRules, chars: &Vec<char>, from: usize) -> (found: bool)
    requires
        from <= chars.len(),
    ensures
        found == starts_here(rules, chars@.skip(from as int)),
        found ==> from < chars.len(),
{
    let ghost rest = chars@.skip(from as int);
    assert(rest.len() > 1 ==> rest[1] == chars@[from + 1]);
    rules != PathRules::Verbatim && from < chars.len() && chars[from] == '.' && (from + 1
        == chars.len() || rules.is_separator(chars[from + 1]))
}

fn text_without_tail(rules: PathRules, chars: &Vec<char>, from: usize) -> (text: String)
    requires
        from <= chars.len(),
    ensures
        text@ == without_tail(rules, chars@.skip(from as int)),
{
    let mut to: usize = chars.len();
    assert(chars@.subrange(from as int, to as int) =~= chars@.skip(from as int));
    while to > from && (rules.is_separator(chars[to - 1]) || (rules != PathRules::Verbatim
        && chars[to - 1] == '.' && (to - 1 == from || rules.is_separator(chars[to - 2]))))
        invariant
            from <= to <= chars.len(),
            without_tail(rules, chars@.skip(from as int)) == without_tail(
                rules,
                chars@.subrange(from as int, to as int),
            ),
        decreases to - from,
    {
        let ghost part = chars@.subrange(from as int, to as int);
        assert(part.drop_last() =~= chars@.subrange(from as int, to - 1));
        assert(part.last() == chars@[to - 1]);
        assert(part.len() > 1 ==> part[part.len() - 2] == chars@[to - 2]);
        to -= 1;
    }
    let ghost part = chars@.subrange(from as int, to as int);
    assert(part.len() > 0 ==> part.last() == chars@[to - 1]);
    assert(part.len() > 1 ==> part[part.len() - 2] == chars@[to - 2]);
    text_of(chars, from, to)
}

fn text_with_start(rules: PathRules, chars: &Vec<char>, from: usize) -> (text: String)
    requires
        from <= chars.len(),
    ensures
        text@ == with_start(rules, chars@.skip(from as int)),
{
    if root_at(rules, chars, from) || here_at(rules, chars, from) {
        let mut text = text_of(chars, from, from + 1);
        let rest = text_without_tail(rules, chars, from + 1);
        assert(chars@.skip(from as int).skip(1) =~= chars@.skip(from + 1));
        assert(chars@.skip(from as int).take(1) =~= chars@.subrange(from as int, from + 1));
        text.append(rest.as_str());
        return text;
    }
    text_without_tail(rules, chars, from)
}

fn after_drive(drive: Option<u32>, rules: PathRules) -> (from: usize)
    ensures
        from == if drive is None {
            0int
        } else if rules == PathRules::Verbatim {
            6
        } else {
            2
        },
{
    match drive {
        None => 0,
        Some(_) => if rules == PathRules::Verbatim {
            6
        } else {
            2
        },
    }
}

/// Gives what `path` is, seen from `base`.
pub fn strip_base(style: PathStyle, path: &str, base: &str) -> (rest: Option<String>)
    ensures
        opt_text(rest) == path_below(style, path@, base@),
{
    let p = chars_of(path);
    let b = chars_of(base);
    let rules = style.rules_for(&p);
    let base_rules = style.rules_for(&b);
    let path_drive: Option<u32> = find_drive(style, &p);
    let base_drive: Option<u32> = find_drive(style, &b);
    let mut i: usize = after_drive(path_drive, rules);
    let mut j: usize = after_drive(base_drive, base_rules);
    if b.len() == 0 {
        let mut text = text_of(&p, 0, i);
        assert(text@ =~= p@.take(i as int));
        let rest = text_with_start(rules, &p, i);
        text.append(rest.as_str());
        return Some(text);
    }
    if rules != base_rules || path_drive != base_drive {
        return None;
    }
    if j == b.len() {
        return Some(text_with_start(rules, &p, i));
    }
    if names_share(style, &p) != names_share(style, &b) || root_at(rules, &p, i) != root_at(
        rules,
        &b,
        j,
    ) || here_at(rules, &p, i) != here_at(rules, &b, j) {
        return None;
    }
    loop
        invariant
            i <= p.len(),
            j <= b.len(),
            p@ == path@,
            b@ == base@,
            path_below(style, path@, base@) == names_below(
                rules,
                p@.skip(i as int),
                b@.skip(j as int),
            ),
        decreases b.len() - j,
    {
        let pi: usize = skip_lead(rules, &p, i);
        let bj: usize = skip_lead(rules, &b, j);
        let ghost pr = p@.skip(pi as int);
        let ghost br = b@.skip(bj as int);
        if bj == b.len() {
            return Some(text_without_tail(rules, &p, pi));
        }
        let pe: usize = end_of_name(rules, &p, pi);
        let be: usize = end_of_name(rules, &b, bj);
        let pname = text_of(&p, pi, pe);
        let bname = text_of(&b, bj, be);
        proof {
            assert(pname@ =~= pr.take(pe - pi));
            assert(bname@ =~= br.take(be - bj));
            lemma_without_lead(rules, b@.skip(j as int));
            lemma_name_end(rules, br);
            assert(pr.skip(pe - pi) =~= p@.skip(pe as int));
            assert(br.skip(be - bj) =~= b@.skip(be as int));
        }
        if pname != bname {
            return None;
        }
        i = pe;
        j = be;
    }
}

// ----------------------------------------------------------------- directories

/// Calls `dirs::config_dir` and writes the path as text, with replacement characters
/// where it is no Unicode. The result depends on the environment, so that nothing is
/// stated of it.
#[verifier::external_body]
fn platform_config_dir() -> Option<String> {
    dirs::config_dir().map(|p| p.to_string_lossy().into_owned())
}

/// Calls `dirs::home_dir` and writes the path as text, with replacement characters where
/// it is no Unicode. The result depends on the environment, so that nothing is stated of
/// it.
#[verifier::external_body]
fn platform_home_dir() -> Option<String> {
    dirs::home_dir().map(|p| p.to_string_lossy().into_owned())
}

/// Calls `dirs::download_dir` and writes the path as text, with replacement characters
/// where it is no Unicode. The result depends on the environment, so that nothing is
/// stated of it.
#[verifier::external_body]
fn platform_download_dir() -> Option<String> {
    dirs::download_dir().map(|p| p.to_string_lossy().into_owned())
}

/// A directory, seen from the current directory `here`.
pub open spec fn dir_from(style: PathStyle, here: Seq<char>, dir: Seq<char>) -> Seq<char> {
    if is_absolute(style, dir) {
        dir
    } else {
        joined(style, here, dir)
    }
}

/// A directory, seen from the current directory `here`; that one where there is none.
pub open spec fn dir_or_here(style: PathStyle, here: Seq<char>, dir: Option<Seq<char>>) -> Seq<char> {
    match dir {
        Some(d) => dir_from(style, here, d),
        None => here,
    }
}

fn find_dir(style: PathStyle, here: &str, dir: String) -> (d: String)
    ensures
        d@ == dir_from(style, here@, dir@),
{
    if is_absolute_path(style, dir.as_str()) {
        dir
    } else {
        put_below(style, here, dir.as_str())
    }
}

/// The directory of the settings, for the current directory and the directory that the
/// platform keeps settings in.
pub open spec fn settings_dir(
    style: PathStyle,
    here: Seq<char>,
    platform_dir: Option<Seq<char>>,
) -> Seq<char> {
    joined(style, dir_or_here(style, here, platform_dir), "udemyget"@)
}

/// The path of the file `name` among the settings.
pub open spec fn settings_file(
    style: PathStyle,
    here: Seq<char>,
    platform_dir: Option<Seq<char>>,
    name: Seq<char>,
) -> Seq<char> {
    joined(style, settings_dir(style, here, platform_dir), name)
}

/// The settings have absolute paths, whatever directory the platform names, if the
/// current directory is written as an absolute path.
pub proof fn law_settings_are_absolute(
    style: PathStyle,
    here: Seq<char>,
    platform_dir: Option<Seq<char>>,
    name: Seq<char>,
)
    requires
        is_absolute(style, here),
    ensures
        is_absolute(style, settings_dir(style, here, platform_dir)),
        is_absolute(style, settings_file(style, here, platform_dir, name)),
{
    if let Some(d) = platform_dir {
        lemma_joined_is_absolute(style, here, d);
    }
    lemma_joined_is_absolute(style, dir_or_here(style, here, platform_dir), "udemyget"@);
    lemma_joined_is_absolute(style, settings_dir(style, here, platform_dir), name);
}

/// Files among the settings with other names have other paths.
pub proof fn law_settings_have_paths_of_their_own(
    style: PathStyle,
    here: Seq<char>,
    platform_dir: Option<Seq<char>>,
    name1: Seq<char>,
    name2: Seq<char>,
)
    requires
        settings_file(style, here, platform_dir, name1) == settings_file(
            style,
            here,
            platform_dir,
            name2,
        ),
    ensures
        name1 == name2,
{
    let dir = settings_dir(style, here, platform_dir);
    let lead = joined(style, dir, seq![]);
    assert(joined(style, dir, name1) =~= lead + name1);
    assert(joined(style, dir, name2) =~= lead + name2);
    assert(name1 =~= (lead + name1).skip(lead.len() as int));
    assert(name2 =~= (lead + name2).skip(lead.len() as int));
}

/// Gives the directory of the settings, for the current directory and the directory that
/// the platform keeps settings in.
pub fn config_dir_in(style: PathStyle, here: &str, platform_dir: Option<String>) -> (dir: String)
    ensures
        dir@ == settings_dir(style, here@, opt_text(platform_dir)),
        is_absolute(style, here@) ==> is_absolute(style, dir@),
{
    proof {
        if is_absolute(style, here@) {
            law_settings_are_absolute(style, here@, opt_text(platform_dir), seq![]);
        }
    }
    let base = match platform_dir {
        Some(d) => find_dir(style, here, d),
        None => here.to_owned(),
    };
    put_below(style, base.as_str(), "udemyget")
}

/// Gives the path of a file among the settings, for the current directory and the
/// directory that the platform keeps settings in.
pub fn config_file_in(
    style: PathStyle,
    here: &str,
    platform_dir: Option<String>,
    name: &str,
) -> (path: String)
    requires
        is_plain(name@),
    ensures
        path@ == settings_file(style, here@, opt_text(platform_dir), name@),
        is_absolute(style, here@) ==> is_absolute(style, path@),
{
    proof {
        if is_absolute(style, here@) {
            law_settings_are_absolute(style, here@, opt_text(platform_dir), name@);
        }
    }
    let dir = config_dir_in(style, here, platform_dir);
    join_path(style, dir.as_str(), name)
}

/// Whether `dir` is the directory of the settings, for a style and a directory of the
/// platform. It is absolute if the current directory is written as an absolute path.
pub open spec fn is_settings_dir(
    dir: Seq<char>,
    here: Seq<char>,
    style: PathStyle,
    platform_dir: Option<Seq<char>>,
) -> bool {
    &&& dir == settings_dir(style, here, platform_dir)
    &&& is_absolute(style, here) ==> is_absolute(style, dir)
}

/// Whether `path` is the path of the file `name` among the settings, for a style and a
/// directory of the platform. It is absolute if the current directory is written as an
/// absolute path.
pub open spec fn is_settings_file(
    path: Seq<char>,
    here: Seq<char>,
    name: Seq<char>,
    style: PathStyle,
    platform_dir: Option<Seq<char>>,
) -> bool {
    &&& path == settings_file(style, here, platform_dir, name)
    &&& is_absolute(style, here) ==> is_absolute(style, path)
}

/// The directory of the settings on this platform, for the current directory `here`.
pub fn config_dir(here: &str) -> (dir: String)
    ensures
        exists|style: PathStyle, platform_dir: Option<Seq<char>>|
            is_settings_dir(dir@, here@, style, platform_dir),
{
    let style = PathStyle::current();
    let platform_dir = platform_config_dir();
    let ghost shown = opt_text(platform_dir);
    let dir = config_dir_in(style, here, platform_dir);
    assert(is_settings_dir(dir@, here@, style, shown));
    dir
}

/// The path of the file of settings on this platform, for the current directory `here`.
pub fn config_path(here: &str) -> (path: String)
    ensures
        exists|style: PathStyle, platform_dir: Option<Seq<char>>|
            is_settings_file(path@, here@, "config.json"@, style, platform_dir),
{
    proof {
        reveal_strlit("config.json");
    }
    let style = PathStyle::current();
    let platform_dir = platform_config_dir();
    let ghost shown = opt_text(platform_dir);
    let path = config_file_in(style, here, platform_dir, "config.json");
    assert(is_settings_file(path@, here@, "config.json"@, style, shown));
    path
}

/// Absolute path to the cookie file on this platform, for the current directory `here`
/// written as an absolute path.
pub fn cookie_file_path(here: &str) -> (path: String)
    ensures
        exists|style: PathStyle, platform_dir: Option<Seq<char>>|
            is_settings_file(path@, here@, "cookies.txt"@, style, platform_dir),
{
    proof {
        reveal_strlit("cookies.txt");
    }
    let style = PathStyle::current();
    let platform_dir = platform_config_dir();
    let ghost shown = opt_text(platform_dir);
    let path = config_file_in(style, here, platform_dir, "cookies.txt");
    assert(is_settings_file(path@, here@, "cookies.txt"@, style, shown));
    path
}

/// A short form of `path` for display: `~` stands for the home directory.
pub open spec fn shortened(style: PathStyle, path: Seq<char>, home: Option<Seq<char>>) -> Seq<char> {
    match home {
        Some(home) => match path_below(style, path, home) {
            Some(rest) => seq!['~', style.separator()] + rest,
            None => path,
        },
        None => path,
    }
}

/// Gives a short form of `path` for display.
pub fn shorten_path(style: PathStyle, path: String, home: &Option<String>) -> (short: String)
    ensures
        short@ == shortened(style, path@, opt_text(*home)),
{
    if let Some(home) = home {
        if let Some(rest) = strip_base(style, path.as_str(), home.as_str()) {
            let mut short = String::new();
            short.push('~');
            short.push(style.main_separator());
            short.append(rest.as_str());
            assert(short@ =~= seq!['~', style.separator()] + rest@);
            return short;
        }
    }
    path
}

/// The short form of the path of the cookie file, for the current directory and the
/// directories of the platform.
pub open spec fn cookie_file_shown(
    style: PathStyle,
    here: Seq<char>,
    platform_dir: Option<Seq<char>>,
    home: Option<Seq<char>>,
) -> Seq<char> {
    shortened(
        style,
        settings_file(style, here, platform_dir, "cookies.txt"@),
        match home {
            Some(h) => Some(dir_from(style, here, h)),
            None => None,
        },
    )
}

/// Gives the path of the cookie file in a short form for display, for the current
/// directory and the directories of the platform.
pub fn cookie_file_display_in(
    style: PathStyle,
    here: &str,
    platform_dir: Option<String>,
    home: Option<String>,
) -> (text: String)
    ensures
        text@ == cookie_file_shown(style, here@, opt_text(platform_dir), opt_text(home)),
{
    proof {
        reveal_strlit("cookies.txt");
    }
    let path = config_file_in(style, here, platform_dir, "cookies.txt");
    let home = match home {
        Some(h) => Some(find_dir(style, here, h)),
        None => None,
    };
    shorten_path(style, path, &home)
}

/// The path of the cookie file on this platform, in a short form for display, for the
/// current directory `here`.
pub fn cookie_file_display(here: &str) -> (text: String)
    ensures
        exists|style: PathStyle, platform_dir: Option<Seq<char>>, home: Option<Seq<char>>|
            text@ == #[trigger] cookie_file_shown(style, here@, platform_dir, home),
{
    let style = PathStyle::current();
    let platform_dir = platform_config_dir();
    let home = platform_home_dir();
    let ghost d = opt_text(platform_dir);
    let ghost h = opt_text(home);
    let text = cookie_file_display_in(style, here, platform_dir, home);
    assert(text@ == cookie_file_shown(style, here@, d, h));
    text
}

/// What lies below the home directory is displayed with `~` in place of it, whether or
/// not the home directory is written with a separator at its end. It has to be more than
/// a drive, and the drive may not come from what lies below it.
pub proof fn law_paths_below_home_are_shortened(
    style: PathStyle,
    home: Seq<char>,
    rest: Seq<char>,
)
    requires
        is_absolute(style, home),
        drive_len(style, home) < home.len(),
        drive_in(style, joined(style, home, rest)) == drive_in(style, home),
        rest.len() > 0,
        without_lead(style.rules(home), rest) == rest,
        without_tail(style.rules(home), rest) == rest,
    ensures
        shortened(style, joined(style, home, rest), Some(home)) == seq![
            '~',
            style.separator(),
        ] + rest,
{
    let rules = style.rules(home);
    let path = joined(style, home, rest);
    let gap = if rules.separates(home.last()) {
        Seq::<char>::empty()
    } else {
        seq![style.separator()]
    };
    let drive = drive_len(style, home);
    let b = home.skip(drive);
    assert(path =~= home + (gap + rest));
    lemma_longer_is_absolute(style, home, gap + rest);
    assert(path[0] == home[0]);
    assert(home.len() >= 4 ==> path[1] == home[1] && path[2] == home[2] && path[3] == home[3]);
    if style == PathStyle::Windows && home.len() < 4 {
        assert(drive_of(style, home) is Some) by {
            if is_network(style, home) {
                lemma_name_end(PathRules::Windows, home.skip(2).skip(1));
            }
        }
    }
    assert(style.rules(path) == rules);
    assert(is_network(style, path) == is_network(style, home));
    assert(b[0] == home[drive]);
    assert(is_verbatim(style, home) && drive == 6 ==> home[6] == home.skip(4)[2]);
    assert(is_rooted(rules, b));
    assert(b.last() == home.last());
    assert(path.skip(drive) =~= b + gap + rest);
    assert(is_rooted(rules, path.skip(drive)));
    lemma_names_below(rules, b, gap, rest);
}

/// Whether `gap` can stand between `base` and a name below it.
spec fn is_gap(rules: PathRules, base: Seq<char>, gap: Seq<char>) -> bool {
    ||| gap.len() == 0 && (base.len() == 0 || rules.separates(base.last()))
    ||| gap.len() == 1 && rules.separates(gap[0])
}

/// A path without its lead, when more follows it.
proof fn lemma_lead_with_rest(rules: PathRules, base: Seq<char>, gap: Seq<char>, rest: Seq<char>)
    requires
        is_gap(rules, base, gap),
        rest.len() > 0,
        without_lead(rules, rest) == rest,
    ensures
        without_lead(rules, base + gap + rest) == if without_lead(rules, base).len() > 0 {
            without_lead(rules, base) + gap + rest
        } else {
            rest
        },
    decreases base.len(),
{
    let whole = base + gap + rest;
    if is_rooted(rules, base) || starts_here(rules, base) {
        assert(whole.skip(1) =~= base.skip(1) + gap + rest);
        assert(base.len() > 1 ==> base.skip(1).last() == base.last());
        lemma_lead_with_rest(rules, base.skip(1), gap, rest);
        assert(whole[0] == base[0]);
        assert(base.len() > 1 ==> whole[1] == base[1]);
        assert(base.len() == 1 && gap.len() == 1 ==> whole[1] == gap[0]);
    } else if base.len() == 0 {
        if gap.len() == 0 {
            assert(whole =~= rest);
        } else {
            assert(whole.skip(1) =~= rest);
            assert(whole[0] == gap[0]);
        }
    } else {
        assert(whole[0] == base[0]);
        assert(base.len() > 1 ==> whole[1] == base[1]);
    }
}

proof fn lemma_name_with_rest(rules: PathRules, base: Seq<char>, gap: Seq<char>, rest: Seq<char>)
    requires
        is_gap(rules, base, gap),
        base.len() + gap.len() > 0,
    ensures
        name_end(rules, base + gap + rest) == name_end(rules, base),
    decreases base.len(),
{
    let whole = base + gap + rest;
    if base.len() > 0 && !rules.separates(base[0]) {
        assert(whole.skip(1) =~= base.skip(1) + gap + rest);
        assert(base.len() > 1 ==> base.skip(1).last() == base.last());
        lemma_name_with_rest(rules, base.skip(1), gap, rest);
        assert(whole[0] == base[0]);
    } else if base.len() > 0 {
        assert(whole[0] == base[0]);
    } else {
        assert(whole[0] == gap[0]);
    }
}

proof fn lemma_names_below(rules: PathRules, base: Seq<char>, gap: Seq<char>, rest: Seq<char>)
    requires
        is_gap(rules, base, gap),
        rest.len() > 0,
        without_lead(rules, rest) == rest,
        without_tail(rules, rest) == rest,
    ensures
        names_below(rules, base + gap + rest, base) == Some(rest),
    decreases base.len(),
{
    let b = without_lead(rules, base);
    lemma_lead_with_rest(rules, base, gap, rest);
    lemma_without_lead(rules, base);
    if b.len() > 0 {
        let n = name_end(rules, b);
        lemma_name_end(rules, b);
        lemma_name_with_rest(rules, b, gap, rest);
        let p = b + gap + rest;
        assert(p.take(n) =~= b.take(n));
        assert(p.skip(n) =~= b.skip(n) + gap + rest);
        assert(n < b.len() ==> b.skip(n).last() == b.last());
        if n == b.len() {
            lemma_no_separator(rules, b);
        }
        lemma_names_below(rules, b.skip(n), gap, rest);
    }
}

proof fn lemma_no_separator(rules: PathRules, path: Seq<char>)
    requires
        path.len() > 0,
        name_end(rules, path) == path.len(),
    ensures
        !rules.separates(path.last()),
    decreases path.len(),
{
    if path.len() > 1 {
        lemma_no_separator(rules, path.skip(1));
    }
}

// ----------------------------------------------------------------- cookie file

/// The cookie string in the text of the cookie file, or why there is none.
pub open spec fn cookie_of(raw: Seq<char>) -> Result<Seq<char>, Seq<char>> {
    if trimmed(raw).len() == 0 {
        Err("file is empty"@)
    } else {
        Ok(trimmed(raw))
    }
}

/// The cookie string in the cookie file: its text without white space at either end.
/// There is none if nothing is left.
pub fn cookie_in_file(raw: &str) -> (cookie: Result<String, String>)
    ensures
        match cookie {
            Ok(c) => c@ == trimmed(raw@) && c@.len() > 0,
            Err(e) => trimmed(raw@).len() == 0 && e@ == "file is empty"@,
        },
        match cookie {
            Ok(c) => cookie_of(raw@) == Ok::<Seq<char>, Seq<char>>(c@),
            Err(e) => cookie_of(raw@) == Err::<Seq<char>, Seq<char>>(e@),
        },
{
    let cookie = trim_text(raw);
    if cookie.as_str().is_empty() {
        return Err("file is empty".to_owned());
    }
    Ok(cookie)
}

/// What the cookie file holds until a cookie is pasted.
pub open spec fn placeholder() -> Seq<char> {
    "# Paste your Udemy Cookie header value on the line below and save.\n"@
        + "# How to get it:\n"@
        + "#   1. Log in to udemy.com in Firefox / Chrome\n"@
        + "#   2. DevTools (F12) -> Network tab -> reload page\n"@
        + "#   3. Click any request to udemy.com\n"@
        + "#   4. Request Headers -> right-click Cookie -> Copy value\n"@
        + "#   5. Replace this entire comment with that value and save.\n"@
}

/// Gives what the cookie file holds until a cookie is pasted.
pub fn cookie_placeholder() -> (text: String)
    ensures
        text@ == placeholder(),
{
    let mut text = "# Paste your Udemy Cookie header value on the line below and save.\n".to_owned();
    text.append("# How to get it:\n");
    text.append("#   1. Log in to udemy.com in Firefox / Chrome\n");
    text.append("#   2. DevTools (F12) -> Network tab -> reload page\n");
    text.append("#   3. Click any request to udemy.com\n");
    text.append("#   4. Request Headers -> right-click Cookie -> Copy value\n");
    text.append("#   5. Replace this entire comment with that value and save.\n");
    text
}

// -------------------------------------------------------------------- settings

/// The settings.
#[derive(Debug)]
pub struct Config {
    /// The cookie string, from the cookie file; it is not written to disk.
    pub cookie: String,
    /// Where to put downloaded files.
    pub output_dir: String,
}

/// Where downloaded files are put by default: below the directory for downloads, which
/// is `Downloads` in the home directory unless the platform names another one. Without a
/// home directory they are put below the current one.
pub open spec fn output_dir_for(
    style: PathStyle,
    download: Option<Seq<char>>,
    home: Option<Seq<char>>,
) -> Seq<char> {
    joined(
        style,
        match (download, home) {
            (Some(d), _) => d,
            (None, Some(h)) => joined(style, h, "Downloads"@),
            (None, None) => "."@,
        },
        "Udemy"@,
    )
}

/// Gives the directory where downloaded files are put by default, for the directories
/// of the platform.
pub fn default_output_dir_in(style: PathStyle, download: Option<String>, home: Option<String>) -> (
    dir: String)
    ensures
        dir@ == output_dir_for(style, opt_text(download), opt_text(home)),
{
    proof {
        reveal_strlit("Udemy");
        reveal_strlit("Downloads");
    }
    let base = match (download, home) {
        (Some(d), _) => d,
        (None, Some(h)) => join_path(style, h.as_str(), "Downloads"),
        (None, None) => ".".to_owned(),
    };
    join_path(style, base.as_str(), "Udemy")
}

/// The directory where downloaded files are put by default on this platform.
pub fn default_output_dir() -> (dir: String)
    ensures
        exists|style: PathStyle, download: Option<Seq<char>>, home: Option<Seq<char>>|
            dir@ == #[trigger] output_dir_for(style, download, home),
{
    let style = PathStyle::current();
    let download = platform_download_dir();
    let home = platform_home_dir();
    let ghost d = opt_text(download);
    let ghost h = opt_text(home);
    let dir = default_output_dir_in(style, download, home);
    assert(dir@ == output_dir_for(style, d, h));
    dir
}

/// Files go to `Udemy` in the directory `Downloads` of the home directory, whether the
/// platform names that directory for downloads or none.
pub proof fn law_files_go_to_downloads(style: PathStyle, home: Seq<char>)
    ensures
        output_dir_for(style, None, Some(home)) == joined(
            style,
            joined(style, home, "Downloads"@),
            "Udemy"@,
        ),
        output_dir_for(style, Some(joined(style, home, "Downloads"@)), Some(home))
            == output_dir_for(style, None, Some(home)),
{
}

impl Default for Config {
    fn default() -> (config: Self)
        ensures
            config.cookie@.len() == 0,
            exists|style: PathStyle, download: Option<Seq<char>>, home: Option<Seq<char>>|
                config.output_dir@ == #[trigger] output_dir_for(style, download, home),
    {
        Config { cookie: String::new(), output_dir: default_output_dir() }
    }
}

// ---------------------------------------------------------------- output paths

/// What `sanitize_filename` makes of a name: `windows` says whether names that Windows
/// reserves are removed too.
pub uninterp spec fn sanitized(name: Seq<char>, windows: bool) -> Seq<char>;

/// Whether a character may not stand in a file name.
pub open spec fn is_forbidden(c: char) -> bool {
    ||| c == '/' || c == '?' || c == '<' || c == '>' || c == '\\'
    ||| c == ':' || c == '*' || c == '|' || c == '"'
    ||| c as u32 <= 0x1f
    ||| 0x80 <= c as u32 <= 0x9f
}

/// Calls `sanitize_filename::sanitize_with_options`, with truncation and with nothing
/// in place of what is removed. Trusted: the result is a function of the name and the
/// flag, it is what [`sanitized`] names, no forbidden character is left in it, and it
/// is neither `.` nor `..`.
#[verifier::external_body]
fn sanitize(name: &str, windows: bool) -> (clean: String)
    ensures
        clean@ == sanitized(name@, windows),
        forall|i: int| 0 <= i < clean@.len() ==> !is_forbidden(#[trigger] clean@[i]),
        clean@ != seq!['.'],
        clean@ != seq!['.', '.'],
{
    let options = sanitize_filename::Options { windows, truncate: true, replacement: "" };
    sanitize_filename::sanitize_with_options(name, options)
}

/// `{index:0width}. {title}`
pub open spec fn numbered(index: u32, width: nat, title: Seq<char>) -> Seq<char> {
    padded(decimal(index as nat), '0', width) + ". "@ + title
}

/// The path of a lecture below `course_dir`, for titles that are fit for file names.
pub open spec fn lecture_file(
    style: PathStyle,
    course_dir: Seq<char>,
    chapter_index: u32,
    chapter: Seq<char>,
    lecture_index: u32,
    lecture: Seq<char>,
) -> Seq<char> {
    joined(
        style,
        joined(style, course_dir, numbered(chapter_index, 2, chapter)),
        numbered(lecture_index, 3, lecture) + ".mp4"@,
    )
}

/// `{output_dir}/{course}/{chapter_index:02}. {chapter}/{lecture_index:03}. {lecture}.mp4`
pub open spec fn output_path(
    style: PathStyle,
    output_dir: Seq<char>,
    course_title: Seq<char>,
    chapter_index: u32,
    chapter_title: Seq<char>,
    lecture_index: u32,
    lecture_title: Seq<char>,
) -> Seq<char> {
    let windows = style == PathStyle::Windows;
    lecture_file(
        style,
        joined(style, output_dir, sanitized(course_title, windows)),
        chapter_index,
        sanitized(chapter_title, windows),
        lecture_index,
        sanitized(lecture_title, windows),
    )
}

/// Whether `title` is the name of a file or directory itself, and leads nowhere else.
pub open spec fn is_harmless(title: Seq<char>) -> bool {
    is_plain(title) && title != seq!['.'] && title != seq!['.', '.']
}

proof fn lemma_numbered_is_plain(index: u32, width: nat, title: Seq<char>)
    requires
        is_plain(title),
    ensures
        is_plain(numbered(index, width, title)),
{
    lemma_decimal_digits(index as nat);
    reveal_strlit(". ");
    let n = numbered(index, width, title);
    let head = padded(decimal(index as nat), '0', width);
    assert forall|i: int| 0 <= i < n.len() implies #[trigger] n[i] != '/' && n[i] != '\\' && n[i]
        != ':' by {
        if i < head.len() {
            assert(n[i] == head[i]);
            let pad = head.len() - decimal(index as nat).len();
            if i >= pad {
                assert(head[i] == decimal(index as nat)[i - pad]);
                assert(digit_value(head[i]) is Some);
            }
        } else if i < head.len() + 2 {
            assert(n[i] == ". "@[i - head.len()]);
        } else {
            assert(n[i] == title[i - head.len() - 2]);
        }
    }
}

fn numbered_text(index: u32, width: usize, title: &str) -> (s: String)
    ensures
        s@ == numbered(index, width as nat, title@),
{
    let mut s = padded_decimal(index as u64, '0', width);
    s.append(". ");
    s.append(title);
    s
}

/// Gives the path of a lecture below `course_dir`, for titles that are fit for file
/// names.
pub fn lecture_file_in(
    style: PathStyle,
    course_dir: &str,
    chapter_index: u32,
    chapter: &str,
    lecture_index: u32,
    lecture: &str,
) -> (path: String)
    requires
        is_plain(chapter@),
        is_plain(lecture@),
    ensures
        path@ == lecture_file(style, course_dir@, chapter_index, chapter@, lecture_index, lecture@),
{
    let chapter_dir = numbered_text(chapter_index, 2, chapter);
    let mut file = numbered_text(lecture_index, 3, lecture);
    proof {
        lemma_numbered_is_plain(chapter_index, 2, chapter@);
        lemma_numbered_is_plain(lecture_index, 3, lecture@);
        reveal_strlit(".mp4");
    }
    file.append(".mp4");
    let dir = join_path(style, course_dir, chapter_dir.as_str());
    join_path(style, dir.as_str(), file.as_str())
}

/// Gives the path that a lecture is downloaded to, in the given style. The titles of
/// the course, the chapter and the lecture give one name each: none of them leads out
/// of its directory.
pub fn lecture_output_path_in(
    style: PathStyle,
    output_dir: &str,
    course_title: &str,
    chapter_index: u32,
    chapter_title: &str,
    lecture_index: u32,
    lecture_title: &str,
) -> (path: String)
    ensures
        path@ == output_path(
            style,
            output_dir@,
            course_title@,
            chapter_index,
            chapter_title@,
            lecture_index,
            lecture_title@,
        ),
        is_harmless(sanitized(course_title@, style == PathStyle::Windows)),
        is_harmless(sanitized(chapter_title@, style == PathStyle::Windows)),
        is_harmless(sanitized(lecture_title@, style == PathStyle::Windows)),
{
    let windows: bool = style == PathStyle::Windows;
    let course = sanitize(course_title, windows);
    let chapter = sanitize(chapter_title, windows);
    let lecture = sanitize(lecture_title, windows);
    let course_dir = join_path(style, output_dir, course.as_str());
    lecture_file_in(
        style,
        course_dir.as_str(),
        chapter_index,
        chapter.as_str(),
        lecture_index,
        lecture.as_str(),
    )
}

/// Gives the path that a lecture is downloaded to on this platform.
pub fn lecture_output_path(
    output_dir: &str,
    course_title: &str,
    chapter_index: u32,
    chapter_title: &str,
    lecture_index: u32,
    lecture_title: &str,
) -> (path: String)
    ensures
        exists|style: PathStyle|
            path@ == #[trigger] output_path(
                style,
                output_dir@,
                course_title@,
                chapter_index,
                chapter_title@,
                lecture_index,
                lecture_title@,
            ),
{
    let style = PathStyle::current();
    lecture_output_path_in(
        style,
        output_dir,
        course_title,
        chapter_index,
        chapter_title,
        lecture_index,
        lecture_title,
    )
}

proof fn lemma_leading_zeros(k: nat, s: Seq<char>)
    ensures
        digits_value(repeated('0', k) + s) == digits_value(s),
    decreases k + s.len(),
{
    let whole = repeated('0', k) + s;
    if s.len() > 0 {
        assert(whole.drop_last() =~= repeated('0', k) + s.drop_last());
        lemma_leading_zeros(k, s.drop_last());
    } else if k > 0 {
        let less = (k - 1) as nat;
        assert(whole.drop_last() =~= repeated('0', less) + s);
        lemma_leading_zeros(less, s);
    } else {
        assert(whole =~= s);
    }
}

/// The number before the first dot can be read off a text.
proof fn lemma_number_is_read_off(i: u32, j: u32, width: nat, rest_i: Seq<char>, rest_j: Seq<char>)
    requires
        padded(decimal(i as nat), '0', width) + seq!['.'] + rest_i == padded(
            decimal(j as nat),
            '0',
            width,
        ) + seq!['.'] + rest_j,
    ensures
        i == j,
{
    let a = padded(decimal(i as nat), '0', width);
    let b = padded(decimal(j as nat), '0', width);
    let whole = a + seq!['.'] + rest_i;
    lemma_padded_digits(i, width);
    lemma_padded_digits(j, width);
    if a.len() < b.len() {
        assert(whole[a.len() as int] == '.');
        assert(whole[a.len() as int] == b[a.len() as int]);
        assert(digit_value('.') is None);
    } else if b.len() < a.len() {
        assert((b + seq!['.'] + rest_j)[b.len() as int] == '.');
        assert(whole[b.len() as int] == a[b.len() as int]);
        assert(digit_value('.') is None);
    }
    assert(a =~= whole.take(a.len() as int));
    assert(b =~= whole.take(a.len() as int));
    lemma_decimal_value(i as nat);
    lemma_decimal_value(j as nat);
    if decimal(i as nat).len() < width {
        lemma_leading_zeros((width - decimal(i as nat).len()) as nat, decimal(i as nat));
    }
    if decimal(j as nat).len() < width {
        lemma_leading_zeros((width - decimal(j as nat).len()) as nat, decimal(j as nat));
    }
}

proof fn lemma_padded_digits(index: u32, width: nat)
    ensures
        forall|i: int|
            0 <= i < padded(decimal(index as nat), '0', width).len() ==> digit_value(
                #[trigger] padded(decimal(index as nat), '0', width)[i],
            ) is Some,
{
    lemma_decimal_digits(index as nat);
    let d = decimal(index as nat);
    let p = padded(d, '0', width);
    assert forall|i: int| 0 <= i < p.len() implies digit_value(#[trigger] p[i]) is Some by {
        let pad = p.len() - d.len();
        if i >= pad {
            assert(p[i] == d[i - pad]);
        } else {
            assert(p[i] == '0');
        }
    }
}

/// What a lecture's path consists of after the directory of the course.
proof fn lemma_lecture_file(
    style: PathStyle,
    dir: Seq<char>,
    chapter_index: u32,
    chapter: Seq<char>,
    lecture_index: u32,
    lecture: Seq<char>,
)
    requires
        is_plain(chapter),
    ensures
        lecture_file(style, dir, chapter_index, chapter, lecture_index, lecture) == joined(
            style,
            dir,
            seq![],
        ) + (numbered(chapter_index, 2, chapter).push(style.separator()) + (numbered(
            lecture_index,
            3,
            lecture,
        ) + ".mp4"@)),
{
    let name = numbered(chapter_index, 2, chapter);
    let file = numbered(lecture_index, 3, lecture) + ".mp4"@;
    reveal_strlit(". ");
    lemma_decimal_digits(chapter_index as nat);
    lemma_numbered_is_plain(chapter_index, 2, chapter);
    let base = joined(style, dir, name);
    let lead = joined(style, dir, seq![]);
    assert(base =~= lead + name);
    assert(base.last() == name.last());
    assert(name[name.len() - 1] != '/' && name[name.len() - 1] != '\\');
    assert(base.len() > 2);
    assert(base.push(style.separator()) + file =~= lead + (name.push(style.separator()) + file));
}

proof fn lemma_same_names(
    sep: char,
    name1: Seq<char>,
    file1: Seq<char>,
    name2: Seq<char>,
    file2: Seq<char>,
)
    requires
        is_plain(name1),
        is_plain(name2),
        sep == '/' || sep == '\\',
        name1.push(sep) + file1 == name2.push(sep) + file2,
    ensures
        name1 == name2,
        file1 == file2,
{
    let tail1 = name1.push(sep) + file1;
    let tail2 = name2.push(sep) + file2;
    if name1.len() < name2.len() {
        assert(tail1[name1.len() as int] == sep);
        assert(tail2[name1.len() as int] == name2[name1.len() as int]);
    } else if name2.len() < name1.len() {
        assert(tail2[name2.len() as int] == sep);
        assert(tail1[name2.len() as int] == name1[name2.len() as int]);
    }
    assert(name1 =~= tail1.take(name1.len() as int));
    assert(name2 =~= tail2.take(name1.len() as int));
    assert(file1 =~= tail1.skip(name1.len() as int + 1));
    assert(file2 =~= tail2.skip(name1.len() as int + 1));
}

proof fn lemma_numbered_index(
    i: u32,
    title_i: Seq<char>,
    end_i: Seq<char>,
    j: u32,
    title_j: Seq<char>,
    end_j: Seq<char>,
    width: nat,
)
    requires
        numbered(i, width, title_i) + end_i == numbered(j, width, title_j) + end_j,
    ensures
        i == j,
{
    reveal_strlit(". ");
    let a = padded(decimal(i as nat), '0', width);
    let b = padded(decimal(j as nat), '0', width);
    assert(numbered(i, width, title_i) + end_i =~= a + seq!['.'] + (seq![' '] + title_i + end_i));
    assert(numbered(j, width, title_j) + end_j =~= b + seq!['.'] + (seq![' '] + title_j + end_j));
    lemma_number_is_read_off(
        i,
        j,
        width,
        seq![' '] + title_i + end_i,
        seq![' '] + title_j + end_j,
    );
}

/// Within a course, lectures with other numbers, or in chapters with other numbers,
/// are downloaded to other paths, whatever the titles are.
pub proof fn law_lectures_have_paths_of_their_own(
    style: PathStyle,
    course_dir: Seq<char>,
    chapter_index1: u32,
    chapter1: Seq<char>,
    lecture_index1: u32,
    lecture1: Seq<char>,
    chapter_index2: u32,
    chapter2: Seq<char>,
    lecture_index2: u32,
    lecture2: Seq<char>,
)
    requires
        is_plain(chapter1),
        is_plain(chapter2),
        lecture_file(style, course_dir, chapter_index1, chapter1, lecture_index1, lecture1)
            == lecture_file(style, course_dir, chapter_index2, chapter2, lecture_index2, lecture2),
    ensures
        chapter_index1 == chapter_index2,
        lecture_index1 == lecture_index2,
{
    let sep = style.separator();
    let lead = joined(style, course_dir, seq![]);
    let name1 = numbered(chapter_index1, 2, chapter1);
    let name2 = numbered(chapter_index2, 2, chapter2);
    let file1 = numbered(lecture_index1, 3, lecture1) + ".mp4"@;
    let file2 = numbered(lecture_index2, 3, lecture2) + ".mp4"@;
    let tail1 = name1.push(sep) + file1;
    let tail2 = name2.push(sep) + file2;
    lemma_lecture_file(style, course_dir, chapter_index1, chapter1, lecture_index1, lecture1);
    lemma_lecture_file(style, course_dir, chapter_index2, chapter2, lecture_index2, lecture2);
    assert(tail1 == tail2) by {
        assert(tail1 =~= (lead + tail1).skip(lead.len() as int));
        assert(tail2 =~= (lead + tail2).skip(lead.len() as int));
    }
    lemma_numbered_is_plain(chapter_index1, 2, chapter1);
    lemma_numbered_is_plain(chapter_index2, 2, chapter2);
    lemma_same_names(sep, name1, file1, name2, file2);
    assert(name1 + seq![] =~= name1);
    assert(name2 + seq![] =~= name2);
    lemma_numbered_index(chapter_index1, chapter1, seq![], chapter_index2, chapter2, seq![], 2);
    lemma_numbered_index(lecture_index1, lecture1, ".mp4"@, lecture_index2, lecture2, ".mp4"@, 3);
}

/// The path that a file has while it is being downloaded.
pub fn part_path(output: &str) -> (path: String)
    ensures
        path@ == output@ + ".part"@,
{
    let mut path = output.to_owned();
    path.append(".part");
    path
}

// ------------------------------------------------------------------------ laws

/// A name is put below a directory with one separator between them, which is not written
/// again where the directory ends with one.
pub proof fn law_names_are_put_below_directories(base: Seq<char>, name: Seq<char>)
    requires
        base.len() > 0,
    ensures
        base.last() == '/' ==> joined(PathStyle::Unix, base, name) == base + name,
        base.last() != '/' ==> joined(PathStyle::Unix, base, name) == base + seq!['/'] + name,
        base.last() == '\\' ==> joined(PathStyle::Windows, base, name) == base + name,
        joined(PathStyle::Unix, Seq::<char>::empty(), name) == name,
        joined(PathStyle::Windows, Seq::<char>::empty(), name) == name,
{
    assert(base.push('/') + name =~= base + seq!['/'] + name);
    assert(Seq::<char>::empty() + name =~= name);
}

/// On Windows either separator ends a directory, but only the backslash does in a path that
/// starts with `\\?\`; a drive takes the name without a separator.
pub proof fn law_names_are_put_below_windows_directories(base: Seq<char>, name: Seq<char>)
    requires
        base.len() > 2,
        base.last() != '\\',
    ensures
        base.take(4) != seq!['\\', '\\', '?', '\\'] && base.last() == '/' ==> joined(
            PathStyle::Windows,
            base,
            name,
        ) == base + name,
        base.last() != '/' ==> joined(PathStyle::Windows, base, name) == base + seq!['\\'] + name,
        base.len() >= 4 && base.take(4) == seq!['\\', '\\', '?', '\\'] ==> joined(
            PathStyle::Windows,
            base,
            name,
        ) == base + seq!['\\'] + name,
        joined(PathStyle::Windows, seq!['C', ':'], name) == seq!['C', ':'] + name,
{
    assert(base.push('\\') + name =~= base + seq!['\\'] + name);
    if base.len() >= 4 {
        let start = base.take(4);
        assert(start[0] == base[0] && start[1] == base[1] && start[2] == base[2] && start[3]
            == base[3]);
        if is_verbatim(PathStyle::Windows, base) {
            assert(start =~= seq!['\\', '\\', '?', '\\']);
        }
    }
}

/// On Unix a path is absolute exactly when it starts with a slash.
pub proof fn law_absolute_paths_start_with_a_slash(path: Seq<char>)
    ensures
        is_absolute(PathStyle::Unix, path) <==> path.len() > 0 && path[0] == '/',
{
}

/// On Windows a path is absolute that starts with a drive and a separator, or with `\\?\`.
/// A drive alone does not make a path absolute, nor does a single separator.
pub proof fn law_absolute_paths_start_with_a_drive(letter: char, c: char, rest: Seq<char>)
    requires
        ('A' <= letter && letter <= 'Z') || ('a' <= letter && letter <= 'z'),
        c != '\\' && c != '/',
    ensures
        is_absolute(PathStyle::Windows, seq![letter, ':', '\\'] + rest),
        is_absolute(PathStyle::Windows, seq![letter, ':', '/'] + rest),
        is_absolute(PathStyle::Windows, seq!['\\', '\\', '?', '\\'] + rest),
        !is_absolute(PathStyle::Windows, seq![letter, ':', c] + rest),
        !is_absolute(PathStyle::Windows, seq![letter, ':']),
        !is_absolute(PathStyle::Windows, seq!['\\', c] + rest),
        c != ':' ==> !is_absolute(PathStyle::Windows, seq![letter, c] + rest),
{
    let a = seq![letter, ':', '\\'] + rest;
    assert(a.skip(2)[0] == '\\');
    let b = seq![letter, ':', '/'] + rest;
    assert(b.skip(2)[0] == '/');
    let d = seq![letter, ':', c] + rest;
    assert(d.skip(2)[0] == c);
    assert(d[0] == letter && d[1] == ':');
    let e = seq!['\\', c] + rest;
    assert(e[0] == '\\' && e[1] == c);
    let f = seq![letter, c] + rest;
    assert(f[0] == letter && f[1] == c);
    let v = seq!['\\', '\\', '?', '\\'] + rest;
    assert(v[0] == '\\' && v[1] == '\\' && v[2] == '?' && v[3] == '\\');
}

/// On Windows a path is absolute that starts with the names of a server and a share.
pub proof fn law_absolute_paths_start_with_a_share(
    server: Seq<char>,
    share: Seq<char>,
    rest: Seq<char>,
)
    requires
        server.len() > 0,
        share.len() > 0,
        forall|i: int|
            0 <= i < server.len() ==> #[trigger] server[i] != '/' && server[i] != '\\' && server[i]
                != '?',
        share[0] != '/',
        share[0] != '\\',
    ensures
        is_absolute(PathStyle::Windows, seq!['\\', '\\'] + server + seq!['\\'] + share + rest),
        !is_absolute(PathStyle::Windows, seq!['\\', '\\'] + server),
{
    let rules = PathRules::Windows;
    let path = seq!['\\', '\\'] + server + seq!['\\'] + share + rest;
    let names = path.skip(2);
    assert(names =~= server + (seq!['\\'] + share + rest));
    lemma_name_before(rules, server, seq!['\\'] + share + rest);
    assert(path[2] == server[0]);
    let after = names.skip(server.len() as int + 1);
    assert(after =~= share + rest);
    lemma_name_end(rules, after);
    let short = seq!['\\', '\\'] + server;
    assert(short.skip(2) =~= server + Seq::<char>::empty());
    lemma_name_before(rules, server, Seq::empty());
    assert(short.len() >= 3 ==> short[2] == server[0]);
    assert(short[0] == '\\' && short[1] == '\\');
}

proof fn lemma_name_before(rules: PathRules, name: Seq<char>, rest: Seq<char>)
    requires
        forall|i: int| 0 <= i < name.len() ==> !rules.separates(#[trigger] name[i]),
        rest.len() > 0 ==> rules.separates(rest[0]),
    ensures
        name_end(rules, name + rest) == name.len(),
    decreases name.len(),
{
    if name.len() == 0 {
        assert(name + rest =~= rest);
    } else {
        assert(!rules.separates(name[0]));
        assert((name + rest).skip(1) =~= name.skip(1) + rest);
        lemma_name_before(rules, name.skip(1), rest);
    }
}

/// A path that does not lie below the home directory is shown as it is, though it starts
/// with the same letters; so is every path where there is no home directory.
pub proof fn law_other_paths_are_not_shortened(
    name: Seq<char>,
    rest: Seq<char>,
    home: Seq<char>,
    style: PathStyle,
    path: Seq<char>,
)
    requires
        name.len() > 0,
        home.len() > 0,
        name != seq!['.'],
        home != seq!['.'],
        !name.contains('/'),
        !home.contains('/'),
        name != home,
        rest.len() > 0 ==> rest[0] == '/',
    ensures
        shortened(PathStyle::Unix, seq!['/'] + name + rest, Some(seq!['/'] + home)) == seq!['/']
            + name + rest,
        shortened(style, path, None) == path,
{
    let rules = PathRules::Unix;
    let p = seq!['/'] + name + rest;
    let b = seq!['/'] + home;
    assert(p.skip(0) =~= p);
    assert(b.skip(0) =~= b);
    assert(name.contains(name[0]));
    assert(home.contains(home[0]));
    let p1 = name + rest;
    assert(p.skip(1) =~= p1);
    assert(b.skip(1) =~= home);
    assert(!starts_here(rules, p1)) by {
        if starts_here(rules, p1) {
            if name.len() == 1 {
                assert(name =~= seq!['.']);
            } else {
                assert(p1[1] == name[1]);
                assert(name.contains(name[1]));
            }
        }
    }
    assert(!starts_here(rules, home)) by {
        if starts_here(rules, home) {
            if home.len() == 1 {
                assert(home =~= seq!['.']);
            } else {
                assert(home.contains(home[1]));
            }
        }
    }
    assert(without_lead(rules, p) == without_lead(rules, p1));
    assert(without_lead(rules, p) == p1);
    assert(without_lead(rules, b) == without_lead(rules, home));
    assert(without_lead(rules, b) == home);
    assert forall|i: int| 0 <= i < name.len() implies !rules.separates(#[trigger] name[i]) by {
        assert(name.contains(name[i]));
    }
    assert forall|i: int| 0 <= i < home.len() implies !rules.separates(#[trigger] home[i]) by {
        assert(home.contains(home[i]));
    }
    lemma_name_before(rules, name, rest);
    lemma_name_before(rules, home, Seq::empty());
    assert(home + Seq::<char>::empty() =~= home);
    assert(p1.take(name.len() as int) =~= name);
    assert(home.take(home.len() as int) =~= home);
    assert(names_below(rules, p, b) is None);
}

/// The settings lie in `udemyget` below the directory that the platform keeps settings in,
/// seen from the current directory, or below the current one.
pub proof fn law_settings_lie_below_the_platform_directory(
    style: PathStyle,
    here: Seq<char>,
    dir: Seq<char>,
    name: Seq<char>,
)
    ensures
        is_absolute(style, dir) ==> settings_file(style, here, Some(dir), name) == joined(
            style,
            joined(style, dir, "udemyget"@),
            name,
        ),
        !is_absolute(style, dir) ==> settings_file(style, here, Some(dir), name) == joined(
            style,
            joined(style, joined(style, here, dir), "udemyget"@),
            name,
        ),
        settings_file(style, here, None, name) == joined(
            style,
            joined(style, here, "udemyget"@),
            name,
        ),
{
}

/// The cookie file is shown with `~` for the home directory, seen from the current one.
pub proof fn law_the_cookie_file_is_shown(
    style: PathStyle,
    here: Seq<char>,
    platform_dir: Option<Seq<char>>,
    home: Seq<char>,
)
    ensures
        cookie_file_shown(style, here, platform_dir, None) == settings_file(
            style,
            here,
            platform_dir,
            "cookies.txt"@,
        ),
        is_absolute(style, home) ==> cookie_file_shown(style, here, platform_dir, Some(home))
            == shortened(
            style,
            settings_file(style, here, platform_dir, "cookies.txt"@),
            Some(home),
        ),
{
}

/// The cookie is what stands in the file, without the white space around it. White space
/// alone is no cookie.
pub proof fn law_the_cookie_is_what_the_file_holds(lead: Seq<char>, s: Seq<char>, tail: Seq<char>)
    requires
        forall|i: int| 0 <= i < lead.len() ==> is_space(#[trigger] lead[i]),
        forall|i: int| 0 <= i < tail.len() ==> is_space(#[trigger] tail[i]),
        s.len() > 0 ==> !is_space(s[0]) && !is_space(s.last()),
    ensures
        s.len() > 0 ==> cookie_of(lead + s + tail) == Ok::<Seq<char>, Seq<char>>(s),
        s.len() == 0 ==> cookie_of(lead + s + tail) == Err::<Seq<char>, Seq<char>>(
            "file is empty"@,
        ),
{
    law_white_space_is_cut_off(lead, s, tail);
}

/// Files go to `Udemy` below the directory for downloads, and without any directory below
/// the current one.
pub proof fn law_files_go_below_the_directory_for_downloads(
    style: PathStyle,
    dir: Seq<char>,
    home: Option<Seq<char>>,
)
    ensures
        output_dir_for(style, Some(dir), home) == joined(style, dir, "Udemy"@),
        output_dir_for(style, None, None) == joined(style, "."@, "Udemy"@),
{
}

/// Chapters are numbered with at least two digits and lectures with at least three, and a
/// title follows its number behind a dot and a blank.
pub proof fn law_titles_follow_their_numbers(n: u32, title: Seq<char>)
    ensures
        n < 10 ==> numbered(n, 2, title) == seq!['0', ('0' as int + n) as char] + ". "@ + title,
        n < 10 ==> numbered(n, 3, title) == seq!['0', '0', ('0' as int + n) as char] + ". "@
            + title,
        10 <= n < 100 ==> numbered(n, 2, title) == decimal(n as nat) + ". "@ + title,
        10 <= n < 100 ==> numbered(n, 3, title) == seq!['0'] + decimal(n as nat) + ". "@ + title,
        100 <= n ==> numbered(n, 2, title) == decimal(n as nat) + ". "@ + title && numbered(
            n,
            3,
            title,
        ) == decimal(n as nat) + ". "@ + title,
{
    let d = decimal(n as nat);
    if n < 10 {
        law_digits_follow_each_other(0, n as nat);
        assert(padded(d, '0', 2) =~= seq!['0', ('0' as int + n) as char]);
        assert(padded(d, '0', 3) =~= seq!['0', '0', ('0' as int + n) as char]);
    } else if n < 100 {
        law_digits_follow_each_other((n / 10) as nat, (n % 10) as nat);
        law_digits_follow_each_other(0, (n / 10) as nat);
        assert(d.len() == 2);
        assert(padded(d, '0', 3) =~= seq!['0'] + d);
    } else {
        law_digits_follow_each_other((n / 10) as nat, (n % 10) as nat);
        law_digits_follow_each_other((n / 10 / 10) as nat, (n / 10 % 10) as nat);
        lemma_decimal_digits((n / 10 / 10) as nat);
        assert(d.len() >= 3);
    }
}

/// A lecture is downloaded to a file that ends in `.mp4`, in the directory of its chapter,
/// which lies in that of the course, which lies in the directory for files; each is named
/// by its title, as far as it is fit for a name.
pub proof fn law_lectures_lie_below_chapter_and_course(
    style: PathStyle,
    output_dir: Seq<char>,
    course: Seq<char>,
    chapter_index: u32,
    chapter: Seq<char>,
    lecture_index: u32,
    lecture: Seq<char>,
)
    ensures
        ({
            let windows = style == PathStyle::Windows;
            let course_dir = joined(style, output_dir, sanitized(course, windows));
            let chapter_dir = joined(
                style,
                course_dir,
                numbered(chapter_index, 2, sanitized(chapter, windows)),
            );
            output_path(
                style,
                output_dir,
                course,
                chapter_index,
                chapter,
                lecture_index,
                lecture,
            ) == joined(
                style,
                chapter_dir,
                numbered(lecture_index, 3, sanitized(lecture, windows)) + ".mp4"@,
            )
        }),
{
}

/// Paths are written as on Windows exactly where the backslash stands between names.
pub proof fn law_the_separator_tells_the_style(c: char)
    ensures
        PathStyle::of_separator('\\') == PathStyle::Windows,
        c != '\\' ==> PathStyle::of_separator(c) == PathStyle::Unix,
        PathStyle::Unix.separator() == '/',
        PathStyle::Windows.separator() == '\\',
{
}

/// The letter of a drive means the same in either case, with `\\?\` before it or not; on
/// Unix there are no drives.
pub proof fn law_drives_have_letters_in_either_case(small: char, rest: Seq<char>)
    requires
        'a' <= small && small <= 'z',
    ensures
        ({
            let large = (small as u32 - 32) as char;
            &&& drive_in(PathStyle::Windows, seq![small, ':'] + rest) is Some
            &&& drive_in(PathStyle::Windows, seq![small, ':'] + rest) == drive_in(
                PathStyle::Windows,
                seq![large, ':'] + rest,
            )
            &&& drive_in(
                PathStyle::Windows,
                seq!['\\', '\\', '?', '\\', small, ':', '\\'] + rest,
            ) == drive_in(PathStyle::Windows, seq![large, ':'] + rest)
            &&& drive_in(PathStyle::Unix, seq![small, ':'] + rest) is None
        }),
{
    let large = (small as u32 - 32) as char;
    let a = seq![small, ':'] + rest;
    let b = seq![large, ':'] + rest;
    assert(a[0] == small && a[1] == ':' && b[0] == large && b[1] == ':');
    let v = seq!['\\', '\\', '?', '\\', small, ':', '\\'] + rest;
    assert(v[0] == '\\' && v[1] == '\\' && v[2] == '?' && v[3] == '\\');
    let w = v.skip(4);
    assert(w[0] == small && w[1] == ':' && w[2] == '\\');
}

/// Separators at the start and at the end of a path do not count when its names are
/// compared, and neither do names that mean "here", but in a path that is taken as it is
/// written.
pub proof fn law_separators_at_the_ends_do_not_count(rules: PathRules, c: char, s: Seq<char>)
    requires
        rules.separates(c),
    ensures
        without_lead(rules, seq![c] + s) == without_lead(rules, s),
        without_tail(rules, s + seq![c]) == without_tail(rules, s),
        rules != PathRules::Verbatim ==> {
            &&& without_lead(rules, seq!['.', c] + s) == without_lead(rules, s)
            &&& without_tail(rules, s + seq![c, '.']) == without_tail(rules, s)
        },
{
    let a = seq![c] + s;
    assert(a.skip(1) =~= s);
    let b = s + seq![c];
    assert(b.drop_last() =~= s);
    if rules != PathRules::Verbatim {
        let d = seq!['.', c] + s;
        assert(d.skip(1) =~= a);
        assert(d[0] == '.' && d[1] == c);
        assert(starts_here(rules, d));
        let e = s + seq![c, '.'];
        assert(e.drop_last() =~= b);
        assert(e.last() == '.' && e[e.len() - 2] == c);
        assert(without_lead(rules, d) == without_lead(rules, a));
        assert(without_lead(rules, a) == without_lead(rules, s));
        assert(without_tail(rules, e) == without_tail(rules, b));
        assert(without_tail(rules, b) == without_tail(rules, s));
    }
}

/// A path and a directory whose first names are the same are compared by what follows those
/// names.
pub proof fn law_common_names_are_taken_off(
    rules: PathRules,
    name: Seq<char>,
    c: char,
    path: Seq<char>,
    base: Seq<char>,
)
    requires
        rules.separates(c),
        name.len() > 0,
        forall|i: int| 0 <= i < name.len() ==> !rules.separates(#[trigger] name[i]),
        name != seq!['.'],
    ensures
        names_below(rules, name + seq![c] + path, name + seq![c] + base) == names_below(
            rules,
            path,
            base,
        ),
{
    let p = name + seq![c] + path;
    let b = name + seq![c] + base;
    lemma_named_start(rules, name, c, path);
    lemma_named_start(rules, name, c, base);
    let n = name.len() as int;
    assert(p.take(n) =~= name);
    assert(b.take(n) =~= name);
    assert(p.skip(n) =~= seq![c] + path);
    assert(b.skip(n) =~= seq![c] + base);
    law_separators_at_the_ends_do_not_count(rules, c, path);
    law_separators_at_the_ends_do_not_count(rules, c, base);
    assert(names_below(rules, p, b) == names_below(rules, seq![c] + path, seq![c] + base));
    assert(names_below(rules, seq![c] + path, seq![c] + base) == names_below(rules, path, base));
}

proof fn lemma_named_start(rules: PathRules, name: Seq<char>, c: char, rest: Seq<char>)
    requires
        rules.separates(c),
        name.len() > 0,
        forall|i: int| 0 <= i < name.len() ==> !rules.separates(#[trigger] name[i]),
        name != seq!['.'],
    ensures
        without_lead(rules, name + seq![c] + rest) == name + seq![c] + rest,
        name_end(rules, name + seq![c] + rest) == name.len(),
{
    let p = name + seq![c] + rest;
    assert(p[0] == name[0]);
    assert(!starts_here(rules, p)) by {
        if starts_here(rules, p) {
            if name.len() == 1 {
                assert(name =~= seq!['.']);
            } else {
                assert(p[1] == name[1]);
            }
        }
    }
    assert(p =~= name + (seq![c] + rest));
    lemma_name_before(rules, name, seq![c] + rest);
}

/// On Unix only the slash separates names, on Windows the backslash does too, and it alone
/// in a path that is taken as it is written.
pub proof fn law_separators_of_a_style(c: char, path: Seq<char>)
    ensures
        PathStyle::Unix.rules(path).separates(c) <==> c == '/',
        PathStyle::Windows.rules(seq!['\\', '\\', '?', '\\'] + path).separates(c) <==> c == '\\',
        path.len() > 0 && path[0] != '\\' ==> (PathStyle::Windows.rules(path).separates(c) <==> c
            == '/' || c == '\\'),
{
    let v = seq!['\\', '\\', '?', '\\'] + path;
    assert(v[0] == '\\' && v[1] == '\\' && v[2] == '?' && v[3] == '\\');
}

/// A file among the settings ends with its name, and their directory with `udemyget`, for
/// whatever style and directory of the platform; both are absolute where the current
/// directory is.
pub proof fn law_settings_end_with_their_names(
    path: Seq<char>,
    dir: Seq<char>,
    here: Seq<char>,
    name: Seq<char>,
    style: PathStyle,
    platform_dir: Option<Seq<char>>,
)
    ensures
        is_settings_file(path, here, name, style, platform_dir) ==> path.len() >= name.len()
            && path.skip(path.len() - name.len()) == name && (is_absolute(style, here)
            ==> is_absolute(style, path)),
        is_settings_dir(dir, here, style, platform_dir) ==> dir.len() >= "udemyget"@.len()
            && dir.skip(dir.len() - "udemyget"@.len()) == "udemyget"@ && (is_absolute(style, here)
            ==> is_absolute(style, dir)),
        is_settings_dir(dir, here, style, platform_dir) && is_settings_file(
            path,
            here,
            name,
            style,
            platform_dir,
        ) ==> path == joined(style, dir, name),
{
    if is_settings_file(path, here, name, style, platform_dir) {
        assert(path.skip(path.len() - name.len()) =~= name);
    }
    if is_settings_dir(dir, here, style, platform_dir) {
        assert(dir.skip(dir.len() - "udemyget"@.len()) =~= "udemyget"@);
    }
}

/// A title that leads nowhere else has no separator and no colon in it, and is neither of
/// the two names that mean another directory.
pub proof fn law_harmless_titles_stay_where_they_are(title: Seq<char>, i: int)
    requires
        is_harmless(title),
    ensures
        0 <= i < title.len() ==> title[i] != '/' && title[i] != '\\' && title[i] != ':',
        title != seq!['.'],
        title != seq!['.', '.'],
{
}

} // verus!
