//! File paths inside a saved site, as components rather than bytes.
use crate::order;
use crate::text;
use vstd::prelude::*;

verus! {

/// A path: absolute or relative, and its components. The components `.` and `..` are kept as such;
/// `.` only stands first in a relative path.
#[derive(Debug, Clone, PartialEq, Eq)]
pub struct LocalPath {
    pub absolute: bool,
    pub parts: Vec<String>,
}

/// The mathematical form of a path.
#[verifier::ext_equal]
pub struct PathView {
    pub absolute: bool,
    pub parts: Seq<Seq<char>>,
}

impl View for LocalPath {
    type V = PathView;

    open spec fn view(&self) -> PathView {
        PathView { absolute: self.absolute, parts: text::views(self.parts@) }
    }
}

/// The components among the pieces between slashes: empty pieces and `.` are dropped, except that
/// a first `.` stays where `keep_dot` holds.
pub open spec fn clean_parts(pieces: Seq<Seq<char>>, keep_dot: bool) -> Seq<Seq<char>>
    decreases pieces.len(),
{
    if pieces.len() == 0 {
        Seq::empty()
    } else {
        let rest = clean_parts(pieces.drop_first(), false);
        if pieces[0].len() == 0 || (pieces[0] == "."@ && !keep_dot) {
            rest
        } else {
            seq![pieces[0]] + rest
        }
    }
}

/// The path that a text with slashes denotes.
pub open spec fn parse_of(s: Seq<char>) -> PathView {
    let absolute = s.len() > 0 && s[0] == '/';
    PathView { absolute, parts: clean_parts(text::split(s, '/'), !absolute) }
}

/// The parts that are left when `..` takes back the part before it and `.` is dropped.
pub open spec fn normal_parts(parts: Seq<Seq<char>>) -> Seq<Seq<char>>
    decreases parts.len(),
{
    if parts.len() == 0 {
        Seq::empty()
    } else {
        let before = normal_parts(parts.drop_last());
        if parts.last() == ".."@ {
            if before.len() > 0 {
                before.drop_last()
            } else {
                before
            }
        } else if parts.last() == "."@ {
            before
        } else {
            before.push(parts.last())
        }
    }
}

/// Whether a component is an ordinary name.
pub open spec fn is_normal(part: Seq<char>) -> bool {
    part != "."@ && part != ".."@
}

/// The extension of a file name: what follows its last dot, unless that dot stands first.
pub open spec fn extension_of_name(name: Seq<char>) -> Option<Seq<char>> {
    match text::rindex_of(name, '.', name.len() - 1) {
        Some(i) => if i > 0 {
            Some(name.skip(i + 1))
        } else {
            None
        },
        None => None,
    }
}

impl PathView {
    /// The text of the path.
    pub open spec fn text(self) -> Seq<char> {
        let joined = text::join(self.parts, "/"@);
        if self.absolute {
            "/"@ + joined
        } else {
            joined
        }
    }

    /// The components, the root among them.
    pub open spec fn components(self) -> Seq<Seq<char>> {
        if self.absolute {
            seq!["/"@] + self.parts
        } else {
            self.parts
        }
    }

    /// The path without its last component.
    pub open spec fn parent(self) -> Option<PathView> {
        if self.parts.len() == 0 {
            None
        } else {
            Some(PathView { absolute: self.absolute, parts: self.parts.drop_last() })
        }
    }

    /// The last component, where it is an ordinary name.
    pub open spec fn file_name(self) -> Option<Seq<char>> {
        if self.parts.len() > 0 && is_normal(self.parts.last()) {
            Some(self.parts.last())
        } else {
            None
        }
    }

    /// The extension of the file name.
    pub open spec fn extension(self) -> Option<Seq<char>> {
        match self.file_name() {
            Some(name) => extension_of_name(name),
            None => None,
        }
    }

    /// The path with another last component, or with one more where it has no file name.
    pub open spec fn with_file_name(self, name: Seq<char>) -> PathView {
        if self.file_name() is Some {
            PathView { absolute: self.absolute, parts: self.parts.drop_last().push(name) }
        } else {
            PathView { absolute: self.absolute, parts: self.parts.push(name) }
        }
    }

    /// The path `other`, seen from this one.
    pub open spec fn join(self, other: PathView) -> PathView {
        if other.absolute {
            other
        } else if other.parts.len() > 0 && other.parts[0] == "."@ && (self.absolute
            || self.parts.len() > 0) {
            PathView { absolute: self.absolute, parts: self.parts + other.parts.drop_first() }
        } else {
            PathView { absolute: self.absolute, parts: self.parts + other.parts }
        }
    }

    /// Whether the path lies at or below `base`.
    pub open spec fn starts_with(self, base: PathView) -> bool {
        self.absolute == base.absolute && base.parts.len() <= self.parts.len() && self.parts.take(
            base.parts.len() as int,
        ) == base.parts
    }

    /// The path seen from `base`.
    pub open spec fn strip_prefix(self, base: PathView) -> Option<PathView> {
        if self.starts_with(base) {
            Some(PathView { absolute: false, parts: self.parts.skip(base.parts.len() as int) })
        } else {
            None
        }
    }

    /// The path without `.` and `..`.
    pub open spec fn normalized(self) -> PathView {
        PathView { absolute: self.absolute, parts: normal_parts(self.parts) }
    }

    /// Whether every component is an ordinary name.
    pub open spec fn is_plain(self) -> bool {
        forall|i: int| 0 <= i < self.parts.len() ==> is_normal(#[trigger] self.parts[i])
    }
}

/// Resolving `.` and `..` leaves ordinary names only.
pub proof fn lemma_normalized_is_plain(path: PathView)
    ensures
        path.normalized().is_plain(),
    decreases path.parts.len(),
{
    if path.parts.len() > 0 {
        let shorter = PathView { absolute: path.absolute, parts: path.parts.drop_last() };
        lemma_normalized_is_plain(shorter);
        let before = normal_parts(path.parts.drop_last());
        assert forall|i: int| 0 <= i < normal_parts(path.parts).len() implies is_normal(
            #[trigger] normal_parts(path.parts)[i],
        ) by {
            if i < before.len() {
                assert(is_normal(shorter.normalized().parts[i]));
            }
        }
    }
}

/// A path of ordinary names is its own normal form.
pub proof fn lemma_plain_is_normalized(path: PathView)
    requires
        path.is_plain(),
    ensures
        path.normalized() == path,
    decreases path.parts.len(),
{
    if path.parts.len() > 0 {
        let shorter = PathView { absolute: path.absolute, parts: path.parts.drop_last() };
        assert forall|i: int| 0 <= i < shorter.parts.len() implies is_normal(
            #[trigger] shorter.parts[i],
        ) by {
            assert(is_normal(path.parts[i]));
        }
        lemma_plain_is_normalized(shorter);
        assert(is_normal(path.parts[path.parts.len() - 1]));
        assert(path.parts == path.parts.drop_last().push(path.parts.last()));
    } else {
        assert(path.parts == Seq::<Seq<char>>::empty());
    }
}

/// Normalizing twice is normalizing once.
pub proof fn law_normalizing_twice_is_normalizing_once(path: PathView)
    ensures
        path.normalized().normalized() == path.normalized(),
{
    lemma_normalized_is_plain(path);
    lemma_plain_is_normalized(path.normalized());
}

/// The part of a path below a base, put behind the base again, is the path.
pub proof fn law_stripped_paths_join_again(path: PathView, base: PathView)
    requires
        path.starts_with(base),
        path.is_plain(),
    ensures
        path.strip_prefix(base) matches Some(rest) && base.join(rest) == path,
{
    let rest = path.strip_prefix(base).unwrap();
    if rest.parts.len() > 0 {
        assert(rest.parts[0] == path.parts[base.parts.len() as int]);
        assert(is_normal(path.parts[base.parts.len() as int]));
    }
    assert(base.parts + rest.parts == path.parts);
}

/// Whether a component is an ordinary name.
pub fn is_normal_part(part: &str) -> (r: bool)
    ensures
        r == is_normal(part@),
{
    !text::same(part, ".") && !text::same(part, "..")
}

impl Default for LocalPath {
    /// The empty path.
    fn default() -> (r: LocalPath)
        ensures
            r@ == (PathView { absolute: false, parts: Seq::empty() }),
    {
        LocalPath::empty()
    }
}

impl LocalPath {
    /// The empty path.
    pub fn empty() -> (r: LocalPath)
        ensures
            r@ == (PathView { absolute: false, parts: Seq::empty() }),
    {
        let r = LocalPath { absolute: false, parts: Vec::new() };
        assert(r@.parts == Seq::<Seq<char>>::empty());
        r
    }

    /// The path that a text with slashes denotes.
    pub fn parse(s: &str) -> (r: LocalPath)
        ensures
            r@ == parse_of(s@),
    {
        let chars = text::chars_of(s);
        let absolute = chars.len() > 0 && chars[0] == '/';
        let pieces = text::split_at_char(&chars, '/');
        let ghost all = text::views(pieces@);
        let mut parts: Vec<String> = Vec::new();
        let mut i: usize = 0;
        proof {
            assert(all.skip(0) == all);
            assert(text::views(parts@) + clean_parts(all, !absolute) == clean_parts(all, !absolute));
        }
        while i < pieces.len()
            invariant
                i <= pieces@.len(),
                all == text::views(pieces@),
                text::views(parts@) + clean_parts(all.skip(i as int), !absolute && i == 0)
                    == clean_parts(all, !absolute),
            decreases pieces@.len() - i,
        {
            let ghost rest = all.skip(i as int);
            let ghost before = text::views(parts@);
            proof {
                assert(rest.drop_first() == all.skip(i + 1));
                assert(rest[0] == pieces@[i as int]@);
            }
            let piece = pieces[i].as_str();
            let keep = !absolute && i == 0;
            if !(piece.is_empty() || (text::same(piece, ".") && !keep)) {
                parts.push(pieces[i].clone());
                proof {
                    assert(text::views(parts@) == before.push(piece@));
                    let tail = clean_parts(all.skip(i + 1), false);
                    assert(before + (seq![piece@] + tail) == before.push(piece@) + tail);
                }
            }
            i += 1;
        }
        proof {
            assert(clean_parts(all.skip(all.len() as int), !absolute && i == 0) == Seq::<Seq<char>>::empty());
            assert(text::views(parts@) == clean_parts(all, !absolute));
        }
        LocalPath { absolute, parts }
    }

    /// A copy of the path.
    pub fn duplicate(&self) -> (r: LocalPath)
        ensures
            r@ == self@,
    {
        LocalPath { absolute: self.absolute, parts: text::clone_strings(&self.parts) }
    }

    /// Whether two paths are equal.
    pub fn same(&self, other: &LocalPath) -> (r: bool)
        ensures
            r == (self@ == other@),
    {
        if self.absolute != other.absolute || self.parts.len() != other.parts.len() {
            assert(self@.parts.len() == self.parts@.len() && other@.parts.len() == other.parts@.len());
            return false;
        }
        let mut i: usize = 0;
        while i < self.parts.len()
            invariant
                i <= self.parts@.len(),
                self.parts@.len() == other.parts@.len(),
                forall|j: int| 0 <= j < i ==> #[trigger] self@.parts[j] == other@.parts[j],
            decreases self.parts@.len() - i,
        {
            if !text::same(self.parts[i].as_str(), other.parts[i].as_str()) {
                assert(self@.parts[i as int] != other@.parts[i as int]);
                return false;
            }
            i += 1;
        }
        assert(self@ == other@);
        true
    }

    /// The text of the path.
    pub fn to_text(&self) -> (r: String)
        ensures
            r@ == self@.text(),
    {
        let joined = text::join_strings(&self.parts, "/");
        if self.absolute {
            text::concat("/", joined.as_str())
        } else {
            joined
        }
    }

    /// The first `n` components.
    fn prefix(&self, n: usize) -> (r: LocalPath)
        requires
            n <= self.parts@.len(),
        ensures
            r@ == (PathView { absolute: self.absolute, parts: self@.parts.take(n as int) }),
    {
        let mut r = self.duplicate();
        r.parts.truncate(n);
        proof {
            assert(text::views(r.parts@) == self@.parts.take(n as int)) by {
                assert forall|i: int| 0 <= i < n implies text::views(r.parts@)[i] == self@.parts[i] by {}
            }
        }
        r
    }

    /// The path without its last component.
    pub fn parent(&self) -> (r: Option<LocalPath>)
        ensures
            match r {
                Some(p) => self@.parent() == Some(p@),
                None => self@.parent() is None,
            },
    {
        if self.parts.len() == 0 {
            None
        } else {
            let r = self.prefix(self.parts.len() - 1);
            assert(r@.parts == self@.parts.drop_last());
            Some(r)
        }
    }

    /// The last component, where it is an ordinary name.
    pub fn file_name(&self) -> (r: Option<String>)
        ensures
            match r {
                Some(name) => self@.file_name() == Some(name@),
                None => self@.file_name() is None,
            },
    {
        if self.parts.len() == 0 {
            return None;
        }
        let last = &self.parts[self.parts.len() - 1];
        if text::same(last.as_str(), ".") || text::same(last.as_str(), "..") {
            None
        } else {
            Some(last.clone())
        }
    }

    /// The extension of the file name.
    pub fn extension(&self) -> (r: Option<String>)
        ensures
            match r {
                Some(e) => self@.extension() == Some(e@),
                None => self@.extension() is None,
            },
    {
        match self.file_name() {
            Some(name) => {
                let chars = text::chars_of(name.as_str());
                let n: usize = chars.len();
                match text::last_index(&chars, '.') {
                    Some(i) => if i > 0 {
                        proof {
                            assert(chars@.subrange(i + 1, chars@.len() as int) == chars@.skip(i + 1));
                        }
                        Some(text::cut_string(&chars, i + 1, n))
                    } else {
                        None
                    },
                    None => None,
                }
            },
            None => None,
        }
    }

    /// The path with another last component.
    pub fn with_file_name(&self, name: &str) -> (r: LocalPath)
        ensures
            r@ == self@.with_file_name(name@),
    {
        let keep: usize = if self.file_name().is_some() {
            self.parts.len() - 1
        } else {
            self.parts.len()
        };
        let mut r = self.prefix(keep);
        let ghost before = r@.parts;
        r.parts.push(name.to_owned());
        proof {
            assert(r@.parts == before.push(name@));
            assert(self@.parts.take(self@.parts.len() as int) == self@.parts);
            if self@.file_name() is Some {
                assert(before == self@.parts.drop_last());
            }
        }
        r
    }

    /// The path with one more component.
    pub fn child(&self, name: &str) -> (r: LocalPath)
        ensures
            r@ == (PathView { absolute: self.absolute, parts: self@.parts.push(name@) }),
    {
        let mut r = self.duplicate();
        r.parts.push(name.to_owned());
        assert(r@.parts == self@.parts.push(name@));
        r
    }

    /// The path `other`, seen from this one.
    pub fn join(&self, other: &LocalPath) -> (r: LocalPath)
        ensures
            r@ == self@.join(other@),
    {
        if other.absolute {
            return other.duplicate();
        }
        let mut r = self.duplicate();
        let drop = other.parts.len() > 0 && text::same(other.parts[0].as_str(), ".") && (
        self.absolute || self.parts.len() > 0);
        let start: usize = if drop {
            1
        } else {
            0
        };
        let mut i: usize = start;
        proof {
            assert(other@.parts.subrange(start as int, start as int) == Seq::<Seq<char>>::empty());
            assert(r@.parts == self@.parts + other@.parts.subrange(start as int, start as int));
        }
        while i < other.parts.len()
            invariant
                start <= i <= other.parts@.len(),
                r.absolute == self.absolute,
                r@.parts == self@.parts + other@.parts.subrange(start as int, i as int),
            decreases other.parts@.len() - i,
        {
            let ghost before = r@.parts;
            r.parts.push(other.parts[i].clone());
            i += 1;
            proof {
                assert(r@.parts == before.push(other@.parts[i - 1]));
                assert(other@.parts.subrange(start as int, i as int) == other@.parts.subrange(
                    start as int,
                    i - 1,
                ).push(other@.parts[i - 1]));
            }
        }
        proof {
            let n = other@.parts.len() as int;
            if drop {
                assert(other@.parts.subrange(1, n) == other@.parts.drop_first());
            } else {
                assert(other@.parts.subrange(0, n) == other@.parts);
            }
        }
        r
    }

    /// Whether the path lies at or below `base`.
    pub fn starts_with(&self, base: &LocalPath) -> (r: bool)
        ensures
            r == self@.starts_with(base@),
    {
        if self.absolute != base.absolute || base.parts.len() > self.parts.len() {
            return false;
        }
        let front = self.prefix(base.parts.len());
        front.same(base)
    }

    /// The path seen from `base`.
    pub fn strip_prefix(&self, base: &LocalPath) -> (r: Option<LocalPath>)
        ensures
            match r {
                Some(p) => self@.strip_prefix(base@) == Some(p@),
                None => self@.strip_prefix(base@) is None,
            },
    {
        if !self.starts_with(base) {
            return None;
        }
        let n: usize = base.parts.len();
        let mut parts: Vec<String> = Vec::new();
        let mut i: usize = n;
        proof {
            assert(text::views(parts@) == self@.parts.subrange(n as int, n as int));
        }
        while i < self.parts.len()
            invariant
                n <= i <= self.parts@.len(),
                text::views(parts@) == self@.parts.subrange(n as int, i as int),
            decreases self.parts@.len() - i,
        {
            let ghost before = text::views(parts@);
            parts.push(self.parts[i].clone());
            i += 1;
            proof {
                assert(text::views(parts@) == before.push(self@.parts[i - 1]));
                assert(self@.parts.subrange(n as int, i as int) == self@.parts.subrange(
                    n as int,
                    i - 1,
                ).push(self@.parts[i - 1]));
            }
        }
        proof {
            assert(self@.parts.subrange(n as int, self@.parts.len() as int) == self@.parts.skip(n as int));
        }
        Some(LocalPath { absolute: false, parts })
    }

    /// The path without `.` and `..`.
    pub fn normalize(&self) -> (r: LocalPath)
        ensures
            r@ == self@.normalized(),
    {
        let mut parts: Vec<String> = Vec::new();
        let mut i: usize = 0;
        proof {
            assert(text::views(parts@) == normal_parts(self@.parts.take(0)));
        }
        while i < self.parts.len()
            invariant
                i <= self.parts@.len(),
                text::views(parts@) == normal_parts(self@.parts.take(i as int)),
            decreases self.parts@.len() - i,
        {
            let ghost before = text::views(parts@);
            proof {
                assert(self@.parts.take(i + 1).drop_last() == self@.parts.take(i as int));
                assert(self@.parts.take(i + 1).last() == self.parts@[i as int]@);
                reveal_strlit(".");
                reveal_strlit("..");
            }
            let part = &self.parts[i];
            if text::same(part.as_str(), "..") {
                let dropped = parts.pop();
                proof {
                    if before.len() > 0 {
                        assert(text::views(parts@) == before.drop_last());
                    }
                }
            } else if !text::same(part.as_str(), ".") {
                parts.push(part.clone());
                proof {
                    assert(text::views(parts@) == before.push(part@));
                }
            }
            i += 1;
        }
        proof {
            assert(self@.parts.take(self@.parts.len() as int) == self@.parts);
        }
        LocalPath { absolute: self.absolute, parts }
    }
}

/// The rank of a component: the root, then `.`, then `..`, then the names.
pub open spec fn part_rank(part: Seq<char>) -> int {
    if part == "/"@ {
        0
    } else if part == "."@ {
        1
    } else if part == ".."@ {
        2
    } else {
        3
    }
}

/// The order of components: by rank, then by text.
pub open spec fn part_le(a: Seq<char>, b: Seq<char>) -> bool {
    part_rank(a) < part_rank(b) || (part_rank(a) == part_rank(b) && order::text_le(a, b))
}

/// Lexicographic order of component lists.
pub open spec fn parts_le(a: Seq<Seq<char>>, b: Seq<Seq<char>>) -> bool
    decreases a.len(),
{
    if a.len() == 0 {
        true
    } else if b.len() == 0 {
        false
    } else if a[0] != b[0] {
        part_le(a[0], b[0])
    } else {
        parts_le(a.drop_first(), b.drop_first())
    }
}

/// Any two components are ordered.
proof fn lemma_part_le_total(a: Seq<char>, b: Seq<char>)
    ensures
        part_le(a, b) || part_le(b, a),
{
    order::lemma_text_le_total(a, b);
}

/// The order of components is transitive.
proof fn lemma_part_le_transitive(a: Seq<char>, b: Seq<char>, c: Seq<char>)
    requires
        part_le(a, b),
        part_le(b, c),
    ensures
        part_le(a, c),
{
    if part_rank(a) == part_rank(b) && part_rank(b) == part_rank(c) {
        order::lemma_text_le_transitive(a, b, c);
    }
}

/// Components that precede each other are equal.
proof fn lemma_part_le_antisymmetric(a: Seq<char>, b: Seq<char>)
    requires
        part_le(a, b),
        part_le(b, a),
    ensures
        a == b,
{
    order::lemma_text_le_antisymmetric(a, b);
}

/// Any two lists of components are ordered.
proof fn lemma_parts_le_total(a: Seq<Seq<char>>, b: Seq<Seq<char>>)
    ensures
        parts_le(a, b) || parts_le(b, a),
    decreases a.len(),
{
    if a.len() > 0 && b.len() > 0 {
        if a[0] == b[0] {
            lemma_parts_le_total(a.drop_first(), b.drop_first());
        } else {
            lemma_part_le_total(a[0], b[0]);
        }
    }
}

/// The order of lists of components is transitive.
proof fn lemma_parts_le_transitive(a: Seq<Seq<char>>, b: Seq<Seq<char>>, c: Seq<Seq<char>>)
    requires
        parts_le(a, b),
        parts_le(b, c),
    ensures
        parts_le(a, c),
    decreases a.len(),
{
    if a.len() > 0 {
        if a[0] == b[0] && b[0] == c[0] {
            lemma_parts_le_transitive(a.drop_first(), b.drop_first(), c.drop_first());
        } else if a[0] != b[0] && b[0] != c[0] {
            lemma_part_le_transitive(a[0], b[0], c[0]);
            if a[0] == c[0] {
                lemma_part_le_antisymmetric(a[0], b[0]);
            }
        }
    }
}

/// The order of paths by their components.
pub struct ByPath;

/// Whether a path is at most another.
pub open spec fn path_le(a: PathView, b: PathView) -> bool {
    parts_le(a.components(), b.components())
}

/// Any two paths are comparable.
pub proof fn lemma_path_le_total(a: PathView, b: PathView)
    ensures
        path_le(a, b) || path_le(b, a),
{
    lemma_parts_le_total(a.components(), b.components());
}

/// The order of paths is transitive.
pub proof fn lemma_path_le_transitive(a: PathView, b: PathView, c: PathView)
    requires
        path_le(a, b),
        path_le(b, c),
    ensures
        path_le(a, c),
{
    lemma_parts_le_transitive(a.components(), b.components(), c.components());
}

impl order::Preorder<PathView> for ByPath {
    open spec fn le(a: PathView, b: PathView) -> bool {
        path_le(a, b)
    }

    proof fn total(a: PathView, b: PathView) {
        lemma_path_le_total(a, b);
    }

    proof fn transitive(a: PathView, b: PathView, c: PathView) {
        lemma_path_le_transitive(a, b, c);
    }
}

/// The rank of a component.
fn rank(part: &str) -> (r: u8)
    ensures
        r == part_rank(part@),
{
    if text::same(part, "/") {
        0
    } else if text::same(part, ".") {
        1
    } else if text::same(part, "..") {
        2
    } else {
        3
    }
}

/// Whether one list of components is at most another.
fn parts_at_most(a: &Vec<String>, b: &Vec<String>) -> (r: bool)
    ensures
        r == parts_le(text::views(a@), text::views(b@)),
{
    let ghost x = text::views(a@);
    let ghost y = text::views(b@);
    let mut i: usize = 0;
    proof {
        assert(x.skip(0) == x);
        assert(y.skip(0) == y);
    }
    while i < a.len()
        invariant
            i <= a@.len(),
            i <= b@.len(),
            x == text::views(a@),
            y == text::views(b@),
            parts_le(x, y) == parts_le(x.skip(i as int), y.skip(i as int)),
        decreases a@.len() - i,
    {
        if i >= b.len() {
            return false;
        }
        proof {
            assert(x.skip(i as int)[0] == a@[i as int]@);
            assert(y.skip(i as int)[0] == b@[i as int]@);
            assert(x.skip(i as int).drop_first() == x.skip(i + 1));
            assert(y.skip(i as int).drop_first() == y.skip(i + 1));
        }
        let p = a[i].as_str();
        let q = b[i].as_str();
        if !text::same(p, q) {
            let m: u8 = rank(p);
            let n: u8 = rank(q);
            return m < n || (m == n && order::at_most(p, q));
        }
        i += 1;
    }
    true
}

/// The components, the root among them.
fn component_list(path: &LocalPath) -> (r: Vec<String>)
    ensures
        text::views(r@) == path@.components(),
{
    if path.absolute {
        let mut r: Vec<String> = Vec::new();
        r.push("/".to_owned());
        let mut rest = text::clone_strings(&path.parts);
        let ghost tail = text::views(rest@);
        r.append(&mut rest);
        proof {
            assert(text::views(r@) == seq!["/"@] + tail);
        }
        r
    } else {
        text::clone_strings(&path.parts)
    }
}

impl LocalPath {
    /// Whether the path is at most another.
    pub fn at_most(&self, other: &LocalPath) -> (r: bool)
        ensures
            r == path_le(self@, other@),
    {
        parts_at_most(&component_list(self), &component_list(other))
    }
}

impl order::Arranges<LocalPath> for ByPath {
    fn precedes(a: &LocalPath, b: &LocalPath) -> (r: bool) {
        a.at_most(b)
    }
}

impl order::SameView for LocalPath {
    fn same_view(&self, other: &Self) -> (r: bool) {
        self.same(other)
    }
}

/// Where a link from `from` to `to` leads: up from the directory of `from` to the part that both
/// share, and down to `to`.
pub open spec fn link_parts(from: PathView, to: PathView) -> Seq<Seq<char>> {
    let dir = match from.parent() {
        Some(p) => p.components(),
        None => Seq::empty(),
    };
    let target = to.components();
    let common = common_length(dir, target);
    Seq::new((dir.len() - common) as nat, |i: int| ".."@) + Seq::new(
        (target.len() - common) as nat,
        |i: int| text::replace_char(target[common + i], '\\', '/'),
    )
}

/// How many leading components two lists share.
pub open spec fn common_length(a: Seq<Seq<char>>, b: Seq<Seq<char>>) -> int
    decreases a.len(),
{
    if a.len() > 0 && b.len() > 0 && a[0] == b[0] {
        1 + common_length(a.drop_first(), b.drop_first())
    } else {
        0
    }
}

/// The text of the link from `from` to `to`.
pub open spec fn relative_link_of(from: PathView, to: PathView) -> Seq<char> {
    let parts = link_parts(from, to);
    if parts.len() == 0 {
        "."@
    } else {
        text::join(parts, "/"@)
    }
}

/// Shared components stay shared behind the first ones.
proof fn lemma_common_length(a: Seq<Seq<char>>, b: Seq<Seq<char>>, k: int)
    requires
        0 <= k <= a.len(),
        k <= b.len(),
        forall|i: int| 0 <= i < k ==> #[trigger] a[i] == b[i],
        k == a.len() || k == b.len() || a[k] != b[k],
    ensures
        common_length(a, b) == k,
    decreases k,
{
    if k > 0 {
        assert(a[0] == b[0]);
        assert forall|i: int| 0 <= i < k - 1 implies #[trigger] a.drop_first()[i] == b.drop_first()[i] by {
            assert(a[i + 1] == b[i + 1]);
        }
        lemma_common_length(a.drop_first(), b.drop_first(), k - 1);
    }
}

/// The steps of the link from `from` to `to`.
pub fn link_part_list(from: &LocalPath, to: &LocalPath) -> (r: Vec<String>)
    ensures
        text::views(r@) == link_parts(from@, to@),
{
    let dir = match from.parent() {
        Some(p) => component_list(&p),
        None => Vec::new(),
    };
    let target = component_list(to);
    let ghost a = text::views(dir@);
    let ghost b = text::views(target@);
    let mut common: usize = 0;
    while common < dir.len() && common < target.len() && text::same(
        dir[common].as_str(),
        target[common].as_str(),
    )
        invariant
            common <= dir@.len(),
            common <= target@.len(),
            a == text::views(dir@),
            b == text::views(target@),
            forall|i: int| 0 <= i < common ==> #[trigger] a[i] == b[i],
        decreases dir@.len() - common,
    {
        common += 1;
    }
    proof {
        lemma_common_length(a, b, common as int);
        assert(from@.parent() is None ==> a == Seq::<Seq<char>>::empty());
    }
    let ghost whole = link_parts(from@, to@);
    let ghost ups = a.len() - common;
    let mut parts: Vec<String> = Vec::new();
    let mut i: usize = common;
    while i < dir.len()
        invariant
            common <= i <= dir@.len(),
            a.len() == dir@.len(),
            ups == a.len() - common,
            whole.len() >= ups,
            forall|j: int| 0 <= j < ups ==> #[trigger] whole[j] == ".."@,
            text::views(parts@) == whole.take(i - common),
        decreases dir@.len() - i,
    {
        let ghost before = text::views(parts@);
        parts.push("..".to_owned());
        i += 1;
        proof {
            assert(text::views(parts@) == before.push(".."@));
            assert(whole.take(i - common) == whole.take(i - 1 - common).push(whole[i - 1 - common]));
        }
    }
    i = common;
    while i < target.len()
        invariant
            common <= i <= target@.len(),
            b == text::views(target@),
            ups >= 0,
            whole.len() == ups + b.len() - common,
            forall|j: int|
                ups <= j < whole.len() ==> #[trigger] whole[j] == text::replace_char(
                    b[common + (j - ups)],
                    '\\',
                    '/',
                ),
            text::views(parts@) == whole.take(ups + i - common),
        decreases target@.len() - i,
    {
        let ghost before = text::views(parts@);
        let chars = text::chars_of(target[i].as_str());
        let part = text::string_of(&text::replace_chars(&chars, '\\', '/'));
        parts.push(part);
        i += 1;
        proof {
            let n = ups + i - common;
            assert(text::views(parts@) == before.push(part@));
            assert(whole[n - 1] == part@);
            assert(whole.take(n) == whole.take(n - 1).push(whole[n - 1]));
        }
    }
    proof {
        assert(whole.take(whole.len() as int) == whole);
    }
    parts
}

/// Whether a component can stand between slashes: an ordinary name, not empty, without slashes.
pub open spec fn is_clean(part: Seq<char>) -> bool {
    part.len() > 0 && is_normal(part) && !part.contains('/') && !part.contains('\\')
}

/// Whether every component can stand between slashes.
pub open spec fn all_clean(parts: Seq<Seq<char>>) -> bool {
    forall|i: int| 0 <= i < parts.len() ==> is_clean(#[trigger] parts[i])
}

/// Components that are neither empty nor `.` are kept.
proof fn lemma_clean_parts(parts: Seq<Seq<char>>, keep_dot: bool)
    requires
        forall|i: int| 0 <= i < parts.len() ==> (#[trigger] parts[i]).len() > 0 && parts[i] != "."@,
    ensures
        clean_parts(parts, keep_dot) == parts,
    decreases parts.len(),
{
    if parts.len() > 0 {
        assert forall|i: int| 0 <= i < parts.drop_first().len() implies (
        #[trigger] parts.drop_first()[i]).len() > 0 && parts.drop_first()[i] != "."@ by {
            assert(parts[i + 1].len() > 0);
        }
        lemma_clean_parts(parts.drop_first(), false);
        assert(parts[0].len() > 0);
        assert(seq![parts[0]] + parts.drop_first() == parts);
    } else {
        assert(parts == Seq::<Seq<char>>::empty());
    }
}

/// What two lists share is the same in both.
proof fn lemma_common_parts(a: Seq<Seq<char>>, b: Seq<Seq<char>>)
    ensures
        0 <= common_length(a, b) <= a.len(),
        common_length(a, b) <= b.len(),
        a.take(common_length(a, b)) == b.take(common_length(a, b)),
    decreases a.len(),
{
    if a.len() > 0 && b.len() > 0 && a[0] == b[0] {
        let k = common_length(a.drop_first(), b.drop_first());
        lemma_common_parts(a.drop_first(), b.drop_first());
        assert forall|i: int| 0 <= i < k + 1 implies #[trigger] a[i] == b[i] by {
            if i > 0 {
                assert(a.drop_first().take(k)[i - 1] == b.drop_first().take(k)[i - 1]);
            }
        }
        assert(a.take(k + 1) == b.take(k + 1));
    } else {
        assert(a.take(0) == b.take(0));
    }
}

/// Each `..` behind ordinary names takes one of them back.
proof fn lemma_steps_up(parts: Seq<Seq<char>>, n: int)
    requires
        0 <= n <= parts.len(),
        forall|i: int| 0 <= i < parts.len() ==> is_normal(#[trigger] parts[i]),
    ensures
        normal_parts(parts + Seq::new(n as nat, |i: int| ".."@)) == parts.take(parts.len() - n),
    decreases n,
{
    let whole = parts + Seq::new(n as nat, |i: int| ".."@);
    if n == 0 {
        assert(whole == parts);
        lemma_plain_is_normalized(PathView { absolute: false, parts });
        assert(parts.take(parts.len() as int) == parts);
    } else {
        lemma_steps_up(parts, n - 1);
        assert(whole.drop_last() == parts + Seq::new((n - 1) as nat, |i: int| ".."@));
        assert(whole.last() == ".."@);
        assert(parts.take(parts.len() - n + 1).drop_last() == parts.take(parts.len() - n));
    }
}

/// Ordinary names behind a path are kept.
proof fn lemma_steps_down(parts: Seq<Seq<char>>, more: Seq<Seq<char>>)
    requires
        forall|i: int| 0 <= i < more.len() ==> is_normal(#[trigger] more[i]),
    ensures
        normal_parts(parts + more) == normal_parts(parts) + more,
    decreases more.len(),
{
    if more.len() == 0 {
        assert(parts + more == parts);
        assert(normal_parts(parts) + more == normal_parts(parts));
    } else {
        let front = more.drop_last();
        assert forall|i: int| 0 <= i < front.len() implies is_normal(#[trigger] front[i]) by {
            assert(is_normal(more[i]));
        }
        lemma_steps_down(parts, front);
        assert(is_normal(more[more.len() - 1]));
        assert((parts + more).drop_last() == parts + front);
        assert((parts + more).last() == more.last());
        assert((normal_parts(parts) + front).push(more.last()) == normal_parts(parts) + more);
    }
}

/// The steps of a link, followed from the directory of the file that holds it, lead to its target,
/// wherever both lie.
proof fn lemma_link_parts(base: Seq<Seq<char>>, from: PathView, to: PathView)
    requires
        forall|i: int| 0 <= i < base.len() ==> is_normal(#[trigger] base[i]),
        !from.absolute,
        !to.absolute,
        from.parts.len() > 0,
        all_clean(from.parts),
        all_clean(to.parts),
    ensures
        normal_parts(base + from.parts.drop_last() + link_parts(from, to)) == base + to.parts,
        forall|i: int|
            0 <= i < link_parts(from, to).len() ==> {
                let part = #[trigger] link_parts(from, to)[i];
                part.len() > 0 && part != "."@ && !part.contains('/')
            },
{
    let dir = from.parts.drop_last();
    let start = base + dir;
    let target = to.parts;
    let common = common_length(dir, target);
    lemma_common_parts(dir, target);
    let ups = Seq::new((dir.len() - common) as nat, |i: int| ".."@);
    let downs = Seq::new(
        (target.len() - common) as nat,
        |i: int| text::replace_char(target[common + i], '\\', '/'),
    );
    assert forall|i: int| 0 <= i < downs.len() implies #[trigger] downs[i] == target[common + i]
        && is_clean(downs[i]) by {
        let part = target[common + i];
        assert(is_clean(part));
        assert forall|j: int| 0 <= j < part.len() implies part[j] != '\\' by {
            assert(part.contains(part[j]));
        }
        assert(text::replace_char(part, '\\', '/') == part);
    }
    assert(downs == target.skip(common));
    assert forall|i: int| 0 <= i < start.len() implies is_normal(#[trigger] start[i]) by {
        if i < base.len() {
            assert(is_normal(base[i]));
        } else {
            assert(is_clean(from.parts[i - base.len()]));
        }
    }
    lemma_steps_up(start, dir.len() - common);
    lemma_steps_down(start + ups, downs);
    assert(start + (ups + downs) == (start + ups) + downs);
    assert(start.take(start.len() - (dir.len() - common)) == base + dir.take(common));
    assert(base + target.take(common) + target.skip(common) == base + target);
    assert(link_parts(from, to) == ups + downs);
    assert forall|i: int| 0 <= i < link_parts(from, to).len() implies {
        let part = #[trigger] link_parts(from, to)[i];
        part.len() > 0 && part != "."@ && !part.contains('/')
    } by {
        reveal_strlit("..");
        reveal_strlit(".");
        if i >= ups.len() {
            assert(is_clean(downs[i - ups.len()]));
        } else {
            assert(".."@[0] == '.' && ".."@[1] == '.');
            assert(".."@.len() == 2 && "."@.len() == 1);
            assert(!".."@.contains('/'));
        }
    }
}

/// The link between two files of a directory, read from the directory of the first, leads to the
/// second.
pub proof fn lemma_links_below(base: PathView, from: PathView, to: PathView)
    requires
        base.is_plain(),
        !from.absolute,
        !to.absolute,
        from.parts.len() > 0,
        all_clean(from.parts),
        all_clean(to.parts),
    ensures
        (PathView {
            absolute: base.absolute,
            parts: base.parts + from.parts.drop_last(),
        }).join(parse_of(relative_link_of(from, to))).normalized() == (PathView {
            absolute: base.absolute,
            parts: base.parts + to.parts,
        }),
        relative_link_of(from, to).len() > 0,
        relative_link_of(from, to)[0] != '/',
{
    let dir = base.parts + from.parts.drop_last();
    let directory = PathView { absolute: base.absolute, parts: dir };
    let parts = link_parts(from, to);
    let link = relative_link_of(from, to);
    lemma_link_parts(base.parts, from, to);
    reveal_strlit("/");
    reveal_strlit(".");
    if parts.len() == 0 {
        assert(!"."@.contains('/'));
        text::lemma_split_plain("."@, '/');
        let pieces = text::split("."@, '/');
        assert(pieces == seq!["."@]);
        assert(pieces.drop_first() == Seq::<Seq<char>>::empty());
        assert(clean_parts(pieces.drop_first(), false) == Seq::<Seq<char>>::empty());
        assert(parse_of(link).parts == seq!["."@]);
        assert(dir + parts == dir);
        assert(normal_parts(dir) == base.parts + to.parts);
        if base.absolute || dir.len() > 0 {
            assert(dir + seq!["."@].drop_first() == dir);
        } else {
            assert(dir + seq!["."@] == seq!["."@]);
            assert(seq!["."@].drop_last() == Seq::<Seq<char>>::empty());
            assert(seq!["."@].last() == "."@);
            assert("."@.len() == 1);
            reveal_strlit("..");
            assert(".."@.len() == 2);
            assert(normal_parts(seq!["."@]) == Seq::<Seq<char>>::empty());
        }
    } else {
        text::lemma_split_join(parts, '/');
        assert("/"@ == seq!['/']);
        assert(text::split(link, '/') == parts);
        lemma_clean_parts(parts, true);
        lemma_clean_parts(parts, false);
        assert(parts[0].len() > 0);
        text::lemma_join_first(parts, "/"@);
        assert(link[0] == parts[0][0]);
        assert(parts[0].contains(parts[0][0]));
        assert(parse_of(link) == (PathView { absolute: false, parts }));
        assert(directory.join(parse_of(link)).parts == dir + parts);
    }
}

/// The link from one saved file to another, read from the directory of the first, leads to the
/// second.
pub proof fn law_relative_links_lead_to_their_target(from: PathView, to: PathView)
    requires
        !from.absolute,
        !to.absolute,
        from.parts.len() > 0,
        all_clean(from.parts),
        all_clean(to.parts),
    ensures
        from.parent() matches Some(directory) && directory.join(
            parse_of(relative_link_of(from, to)),
        ).normalized() == to,
{
    let base = PathView { absolute: false, parts: Seq::empty() };
    lemma_links_below(base, from, to);
    assert(base.parts + from.parts.drop_last() == from.parts.drop_last());
    assert(base.parts + to.parts == to.parts);
}

/// A path is read back from its text, where its names can stand between slashes.
pub proof fn law_written_paths_are_read(p: PathView)
    requires
        all_clean(p.parts),
        p.parts.len() > 0,
    ensures
        parse_of(p.text()) == p,
{
    reveal_strlit("/");
    assert("/"@ == seq!['/']);
    let joined = text::join(p.parts, "/"@);
    assert forall|i: int| 0 <= i < p.parts.len() implies !(#[trigger] p.parts[i]).contains('/') by {
        assert(is_clean(p.parts[i]));
    }
    assert(is_clean(p.parts[0]));
    text::lemma_split_join(p.parts, '/');
    text::lemma_join_first(p.parts, "/"@);
    let first = p.parts[0];
    assert(first.contains(first[0]));
    if p.absolute {
        let all = seq![Seq::<char>::empty()] + p.parts;
        assert(all.drop_first() == p.parts);
        assert(all[0] == Seq::<char>::empty());
        text::lemma_join_front(all, "/"@);
        assert(text::join(all, "/"@) == p.text());
        assert forall|i: int| 0 <= i < all.len() implies !(#[trigger] all[i]).contains('/') by {
            if i > 0 {
                assert(is_clean(p.parts[i - 1]));
            }
        }
        text::lemma_split_join(all, '/');
        lemma_clean_parts(p.parts, false);
    } else {
        lemma_clean_parts(p.parts, true);
    }
}

/// A `..` takes the name before it back, a `.` changes nothing, and any other component stays.
pub proof fn law_dots_are_resolved(parts: Seq<Seq<char>>, name: Seq<char>)
    requires
        name != "."@,
        name != ".."@,
    ensures
        normal_parts(Seq::empty()) == Seq::<Seq<char>>::empty(),
        normal_parts(parts.push(name)) == normal_parts(parts).push(name),
        normal_parts(parts.push("."@)) == normal_parts(parts),
        normal_parts(parts.push(".."@)) == if normal_parts(parts).len() > 0 {
            normal_parts(parts).drop_last()
        } else {
            normal_parts(parts)
        },
        normal_parts(parts.push(name).push(".."@)) == normal_parts(parts),
{
    reveal_strlit(".");
    reveal_strlit("..");
    assert("."@.len() == 1 && ".."@.len() == 2);
    assert(parts.push(name).drop_last() == parts);
    assert(parts.push("."@).drop_last() == parts);
    assert(parts.push(".."@).drop_last() == parts);
    assert(parts.push(name).push(".."@).drop_last() == parts.push(name));
    assert(normal_parts(parts).push(name).drop_last() == normal_parts(parts));
}

/// The extension of a file is what follows the last dot of its name; a name without a dot has none,
/// nor has one whose only dot stands first.
pub proof fn law_extensions_follow_the_last_dot(
    directory: PathView,
    stem: Seq<char>,
    extension: Seq<char>,
)
    requires
        !extension.contains('.'),
        extension.len() > 0,
    ensures
        stem.len() > 0 ==> (PathView {
            absolute: directory.absolute,
            parts: directory.parts.push(stem + "."@ + extension),
        }).extension() == Some(extension),
        (PathView {
            absolute: directory.absolute,
            parts: directory.parts.push("."@ + extension),
        }).extension() is None,
        (PathView {
            absolute: directory.absolute,
            parts: directory.parts.push(extension),
        }).extension() is None,
{
    reveal_strlit(".");
    reveal_strlit("..");
    assert("."@.len() == 1 && ".."@.len() == 2 && "."@[0] == '.' && ".."@[0] == '.');
    assert forall|i: int| 0 <= i < extension.len() implies #[trigger] extension[i] != '.' by {
        assert(extension.contains(extension[i]));
    }
    let name = stem + "."@ + extension;
    let n = stem.len() as int;
    assert(name[n] == '.');
    assert forall|i: int| n < i < name.len() implies #[trigger] name[i] != '.' by {
        assert(name[i] == extension[i - n - 1]);
    }
    lemma_last_dot(name, n);
    assert(name.skip(n + 1) == extension);
    let hidden = "."@ + extension;
    assert(hidden[0] == '.');
    assert forall|i: int| 0 < i < hidden.len() implies #[trigger] hidden[i] != '.' by {
        assert(hidden[i] == extension[i - 1]);
    }
    lemma_last_dot(hidden, 0);
    text::lemma_rindex_of(extension, '.', extension.len() - 1);
    assert(directory.parts.push(name).last() == name);
    assert(directory.parts.push(hidden).last() == hidden);
    assert(directory.parts.push(extension).last() == extension);
}

/// The last dot of a name.
proof fn lemma_last_dot(name: Seq<char>, n: int)
    requires
        0 <= n < name.len(),
        name[n] == '.',
        forall|i: int| n < i < name.len() ==> #[trigger] name[i] != '.',
    ensures
        text::rindex_of(name, '.', name.len() - 1) == Some(n),
{
    text::lemma_rindex_of(name, '.', name.len() - 1);
}

/// The link from a file to one in the same directory or below it is the path from there; to a file
/// elsewhere it goes up as many steps as needed, and no more.
pub proof fn law_links_are_as_short_as_can_be(
    shared: Seq<Seq<char>>,
    left: Seq<Seq<char>>,
    file: Seq<char>,
    right: Seq<Seq<char>>,
)
    requires
        all_clean(shared),
        all_clean(left),
        all_clean(right),
        right.len() > 0,
        left.len() > 0 ==> left[0] != right[0],
    ensures
        relative_link_of(
            PathView { absolute: false, parts: (shared + left).push(file) },
            PathView { absolute: false, parts: shared + right },
        ) == text::join(Seq::new(left.len(), |i: int| ".."@) + right, "/"@),
{
    let from = PathView { absolute: false, parts: (shared + left).push(file) };
    let to = PathView { absolute: false, parts: shared + right };
    let dir = shared + left;
    assert(from.parts.drop_last() == dir);
    lemma_shared_length(shared, left, right);
    let parts = link_parts(from, to);
    let want = Seq::new(left.len(), |i: int| ".."@) + right;
    assert(parts.len() == want.len());
    assert forall|i: int| 0 <= i < parts.len() implies parts[i] == want[i] by {
        if i >= left.len() {
            let name = right[i - left.len()];
            assert(is_clean(name));
            assert(to.parts[shared.len() + (i - left.len())] == name);
            assert forall|k: int| 0 <= k < name.len() implies name[k] != '\\' by {
                assert(name.contains(name[k]));
            }
            assert(text::replace_char(name, '\\', '/') == name);
        }
    }
    assert(parts == want);
}

/// How much two lists share.
proof fn lemma_shared_length(shared: Seq<Seq<char>>, left: Seq<Seq<char>>, right: Seq<Seq<char>>)
    requires
        right.len() > 0,
        left.len() > 0 ==> left[0] != right[0],
    ensures
        common_length(shared + left, shared + right) == shared.len(),
    decreases shared.len(),
{
    if shared.len() > 0 {
        let rest = shared.drop_first();
        lemma_shared_length(rest, left, right);
        assert((shared + left).drop_first() == rest + left);
        assert((shared + right).drop_first() == rest + right);
        assert((shared + left)[0] == (shared + right)[0]);
    } else {
        assert(shared + left == left);
        assert(shared + right == right);
    }
}

/// Paths are ordered by the first component in which they differ: the root comes first, then `.` and
/// `..`, then names by their texts. A directory comes before what lies in it.
pub proof fn law_paths_are_ordered_by_components(
    shared: Seq<Seq<char>>,
    a: Seq<char>,
    b: Seq<char>,
    x: Seq<Seq<char>>,
    y: Seq<Seq<char>>,
)
    requires
        is_clean(a),
        is_clean(b),
        a != b,
    ensures
        path_le(
            PathView { absolute: false, parts: shared.push(a) + x },
            PathView { absolute: false, parts: shared.push(b) + y },
        ) <==> order::text_le(a, b),
        path_le(
            PathView { absolute: false, parts: shared },
            PathView { absolute: false, parts: shared + x },
        ),
        path_le(
            PathView { absolute: true, parts: x },
            PathView { absolute: false, parts: seq![a] + y },
        ),
        path_le(
            PathView { absolute: false, parts: seq!["."@] + x },
            PathView { absolute: false, parts: seq![".."@] + y },
        ),
        path_le(
            PathView { absolute: false, parts: seq![".."@] + x },
            PathView { absolute: false, parts: seq![a] + y },
        ),
    decreases shared.len(),
{
    reveal_strlit("/");
    reveal_strlit(".");
    reveal_strlit("..");
    assert("/"@.len() == 1 && "."@.len() == 1 && ".."@.len() == 2);
    assert("/"@[0] == '/' && "."@[0] == '.' && ".."@[0] == '.');
    assert(a != "/"@) by {
        if a == "/"@ {
            assert(a.contains(a[0]));
        }
    }
    assert(b != "/"@) by {
        if b == "/"@ {
            assert(b.contains(b[0]));
        }
    }
    let l = shared.push(a) + x;
    let r = shared.push(b) + y;
    if shared.len() > 0 {
        let rest = shared.drop_first();
        law_paths_are_ordered_by_components(rest, a, b, x, y);
        assert(l.drop_first() == rest.push(a) + x);
        assert(r.drop_first() == rest.push(b) + y);
        assert(l[0] == r[0]);
        assert((shared + x).drop_first() == rest + x);
        assert((shared + x)[0] == shared[0]);
    } else {
        assert(l[0] == a && r[0] == b);
    }
    assert((seq!["/"@] + x)[0] == "/"@);
    assert((seq![a] + y)[0] == a);
    assert((seq!["."@] + x)[0] == "."@);
    assert((seq![".."@] + y)[0] == ".."@);
    assert((seq![".."@] + x)[0] == ".."@);
}

} // verus!
