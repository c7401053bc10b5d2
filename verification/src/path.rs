//! Filesystem paths as the bytes that they are made of.

use crate::order::Standing;
use crate::text::{lossy, to_ascii_lower, utf8_text};
use crate::{order, text};
use vstd::prelude::*;
use vstd::utf8::*;

verus! {

/// The byte that separates the names in a path.
pub const SLASH: u8 = 0x2f;

/// The byte that begins an extension.
pub const DOT: u8 = 0x2e;

/// One part of a path.
pub enum PathPart {
    /// The leading slash of an absolute path.
    RootDir,
    /// A leading `.` of a relative path.
    CurDir,
    /// A `..`.
    ParentDir,
    /// Any other name.
    Normal(Seq<u8>),
}

/// Where the first slash in `b` is, or its length where it has none.
pub open spec fn first_slash(b: Seq<u8>) -> int
    decreases b.len(),
{
    if b.len() == 0 || b[0] == SLASH {
        0
    } else {
        1 + first_slash(b.drop_first())
    }
}

/// The part that a name between two slashes stands for: none where the name is
/// empty or `.`.
pub open spec fn named_part(name: Seq<u8>) -> Seq<PathPart> {
    if name.len() == 0 || name == seq![DOT] {
        seq![]
    } else if name == seq![DOT, DOT] {
        seq![PathPart::ParentDir]
    } else {
        seq![PathPart::Normal(name)]
    }
}

/// The parts that the names in `b` stand for, from left to right.
pub open spec fn named_parts(b: Seq<u8>) -> Seq<PathPart>
    decreases b.len(),
{
    let end = first_slash(b);
    if 0 <= end < b.len() {
        named_part(b.take(end)) + named_parts(b.skip(end + 1))
    } else {
        named_part(b)
    }
}

/// What a path begins with before its names: the root, or a leading `.`.
pub open spec fn leading_part(b: Seq<u8>) -> Seq<PathPart> {
    if b.len() > 0 && b[0] == SLASH {
        seq![PathPart::RootDir]
    } else if b.take(first_slash(b)) == seq![DOT] {
        seq![PathPart::CurDir]
    } else {
        seq![]
    }
}

/// The parts of a path. Repeated and trailing slashes make no part, nor does a
/// `.` behind the first name.
pub open spec fn path_parts(b: Seq<u8>) -> Seq<PathPart> {
    leading_part(b) + named_parts(b)
}

pub open spec fn byte_lt() -> spec_fn(u8, u8) -> bool {
    |x: u8, y: u8| x < y
}

/// The root comes before a leading `.`, that before `..`, and that before other
/// names, which stand in byte order.
pub open spec fn part_lt() -> spec_fn(PathPart, PathPart) -> bool {
    |x: PathPart, y: PathPart|
        match (x, y) {
            (PathPart::Normal(a), PathPart::Normal(b)) => order::lex_lt(a, b, byte_lt()),
            _ => part_rank(x) < part_rank(y),
        }
}

pub open spec fn part_rank(x: PathPart) -> int {
    match x {
        PathPart::RootDir => 0,
        PathPart::CurDir => 1,
        PathPart::ParentDir => 2,
        PathPart::Normal(_) => 3,
    }
}

/// `a` may stand before `b` where paths are listed by name: paths compare part by part.
pub open spec fn path_le(a: Seq<u8>, b: Seq<u8>) -> bool {
    order::lex_le(path_parts(a), path_parts(b), part_lt())
}

/// The last name of a path, unless the path ends in `..` or has no name.
pub open spec fn file_name(b: Seq<u8>) -> Option<Seq<u8>> {
    last_name(path_parts(b))
}

pub open spec fn last_name(parts: Seq<PathPart>) -> Option<Seq<u8>> {
    if parts.len() > 0 {
        match parts.last() {
            PathPart::Normal(name) => Some(name),
            _ => None,
        }
    } else {
        None
    }
}

/// The last name of the path without its last part.
pub open spec fn parent_file_name(b: Seq<u8>) -> Option<Seq<u8>> {
    let parts = path_parts(b);
    if parts.len() > 0 {
        last_name(parts.drop_last())
    } else {
        None
    }
}

/// Where the last dot in `name` is, or -1 where it has none.
pub open spec fn last_dot(name: Seq<u8>) -> int
    decreases name.len(),
{
    if name.len() == 0 {
        -1
    } else if name.last() == DOT {
        name.len() - 1
    } else {
        last_dot(name.drop_last())
    }
}

/// What follows the last dot in the file name, unless that dot begins the name.
pub open spec fn extension(b: Seq<u8>) -> Option<Seq<u8>> {
    match file_name(b) {
        Some(name) => {
            let dot = last_dot(name);
            if dot > 0 {
                Some(name.skip(dot + 1))
            } else {
                None
            }
        },
        None => None,
    }
}

/// The extension in lower case; none where the bytes of the extension are not UTF-8.
pub open spec fn lower_extension(b: Seq<u8>) -> Option<Seq<char>> {
    match extension(b) {
        Some(ext) => if valid_utf8(ext) {
            Some(text::ascii_lower(decode_utf8(ext)))
        } else {
            None
        },
        None => None,
    }
}

proof fn lemma_byte_lt_is_strict()
    ensures
        order::strict_order(byte_lt()),
{
}

proof fn lemma_part_lt_is_strict()
    ensures
        order::strict_order(part_lt()),
{
    let lt = part_lt();
    lemma_byte_lt_is_strict();
    order::lemma_lex_lt_is_strict(byte_lt());
    let f = |a: Seq<u8>, b: Seq<u8>| order::lex_lt(a, b, byte_lt());
    assert forall|x: PathPart, y: PathPart| #[trigger] lt(x, y) implies x != y && !lt(y, x) by {
        if let (PathPart::Normal(a), PathPart::Normal(b)) = (x, y) {
            assert(f(a, b));
        }
    }
    assert forall|x: PathPart, y: PathPart| x != y implies #[trigger] lt(x, y) || lt(y, x) by {
        if let (PathPart::Normal(a), PathPart::Normal(b)) = (x, y) {
            assert(f(a, b) || f(b, a));
        }
    }
    assert forall|x: PathPart, y: PathPart, z: PathPart| #[trigger]
        lt(x, y) && #[trigger] lt(y, z) implies lt(x, z) by {
        if let (PathPart::Normal(a), PathPart::Normal(b)) = (x, y) {
            if let PathPart::Normal(c) = z {
                assert(f(a, b) && f(b, c));
                assert(f(a, c));
            }
        }
    }
}

/// Paths stand in a total order by name.
pub proof fn lemma_path_le_is_total_preorder()
    ensures
        order::total_preorder(|a: Seq<u8>, b: Seq<u8>| path_le(a, b)),
{
    let lt = part_lt();
    let le = |a: Seq<u8>, b: Seq<u8>| path_le(a, b);
    lemma_part_lt_is_strict();
    assert forall|x: Seq<u8>, y: Seq<u8>| #[trigger] le(x, y) || le(y, x) by {
        order::lemma_lex_total(path_parts(x), path_parts(y), lt);
    }
    assert forall|x: Seq<u8>, y: Seq<u8>, z: Seq<u8>| #[trigger] le(x, y) && #[trigger] le(y, z) implies le(
        x,
        z,
    ) by {
        order::lemma_lex_transitive(path_parts(x), path_parts(y), path_parts(z), lt);
    }
}

/// A path that was made of text reads as that text.
pub proof fn law_text_path_reads_as_its_text(s: Seq<char>)
    ensures
        valid_utf8(encode_utf8(s)),
        decode_utf8(encode_utf8(s)) == s,
{
    encode_utf8_valid_utf8(s);
    encode_utf8_decode_utf8(s);
}

proof fn lemma_first_slash_bound(b: Seq<u8>)
    ensures
        0 <= first_slash(b) <= b.len(),
        first_slash(b) < b.len() ==> b[first_slash(b)] == SLASH,
        forall|i: int| 0 <= i < first_slash(b) ==> b[i] != SLASH,
    decreases b.len(),
{
    if b.len() > 0 && b[0] != SLASH {
        lemma_first_slash_bound(b.drop_first());
        assert forall|i: int| 0 <= i < first_slash(b) implies b[i] != SLASH by {
            if i > 0 {
                assert(b[i] == b.drop_first()[i - 1]);
            }
        }
    }
}

proof fn lemma_first_slash_is(b: Seq<u8>, end: int)
    requires
        0 <= end <= b.len(),
        end < b.len() ==> b[end] == SLASH,
        forall|i: int| 0 <= i < end ==> b[i] != SLASH,
    ensures
        first_slash(b) == end,
{
    lemma_first_slash_bound(b);
    let f = first_slash(b);
    if f < end {
        assert(b[f] != SLASH);
    }
    if end < f {
        assert(b[end] != SLASH);
    }
}

/// Compares two runs of bytes: `a` from `i` up to `i_end`, and `b` from `k` up to `k_end`.
fn compare_bytes(a: &Vec<u8>, i: usize, i_end: usize, b: &Vec<u8>, k: usize, k_end: usize) -> (r:
    Standing)
    requires
        i <= i_end <= a.len(),
        k <= k_end <= b.len(),
    ensures
        r == order::lex_standing(
            a@.subrange(i as int, i_end as int),
            b@.subrange(k as int, k_end as int),
            byte_lt(),
        ),
{
    let mut x: usize = i;
    let mut y: usize = k;
    let ghost whole = order::lex_standing(
        a@.subrange(i as int, i_end as int),
        b@.subrange(k as int, k_end as int),
        byte_lt(),
    );
    while x < i_end && y < k_end
        invariant
            x <= i_end <= a.len(),
            y <= k_end <= b.len(),
            whole == order::lex_standing(
                a@.subrange(i as int, i_end as int),
                b@.subrange(k as int, k_end as int),
                byte_lt(),
            ),
            whole == order::lex_standing(
                a@.subrange(x as int, i_end as int),
                b@.subrange(y as int, k_end as int),
                byte_lt(),
            ),
        decreases i_end - x,
    {
        let ghost s = a@.subrange(x as int, i_end as int);
        let ghost t = b@.subrange(y as int, k_end as int);
        assert(s[0] == a@[x as int]);
        assert(t[0] == b@[y as int]);
        if a[x] < b[y] {
            return Standing::Before;
        }
        if b[y] < a[x] {
            return Standing::Behind;
        }
        assert(s.drop_first() =~= a@.subrange(x + 1, i_end as int));
        assert(t.drop_first() =~= b@.subrange(y + 1, k_end as int));
        x = x + 1;
        y = y + 1;
    }
    if x < i_end {
        Standing::Behind
    } else if y < k_end {
        Standing::Before
    } else {
        Standing::Same
    }
}

/// A path: the bytes that name an entry of the filesystem.
#[derive(Debug)]
pub struct PathBuf {
    bytes: Vec<u8>,
}

impl View for PathBuf {
    type V = Seq<u8>;

    closed spec fn view(&self) -> Seq<u8> {
        self.bytes@
    }
}

impl PathBuf {
    /// The path made of `bytes`.
    pub fn from_bytes(bytes: Vec<u8>) -> (r: PathBuf)
        ensures
            r@ == bytes@,
    {
        PathBuf { bytes }
    }

    /// The bytes of the path.
    pub fn as_bytes(&self) -> (r: &Vec<u8>)
        ensures
            r@ == self@,
    {
        &self.bytes
    }

    pub fn as_path(&self) -> (r: &PathBuf)
        ensures
            r == self,
    {
        self
    }

    /// The first slash at `from` or behind it, or the length where there is none.
    fn slash_from(&self, from: usize) -> (r: usize)
        requires
            from <= self@.len(),
        ensures
            from <= r <= self@.len(),
            r == from + first_slash(self@.skip(from as int)),
    {
        let mut i: usize = from;
        while i < self.bytes.len() && self.bytes[i] != SLASH
            invariant
                from <= i <= self@.len(),
                self@ == self.bytes@,
                forall|j: int| from <= j < i ==> self@[j] != SLASH,
            decreases self@.len() - i,
        {
            i = i + 1;
        }
        proof {
            let rest = self@.skip(from as int);
            assert forall|j: int| 0 <= j < i - from implies rest[j] != SLASH by {
                assert(rest[j] == self@[from + j]);
            }
            lemma_first_slash_is(rest, i - from);
        }
        i
    }

    /// Whether the bytes from `start` up to `end` are a lone dot.
    fn is_dot(&self, start: usize, end: usize) -> (r: bool)
        requires
            start <= end <= self@.len(),
        ensures
            r == (self@.subrange(start as int, end as int) == seq![DOT]),
    {
        let r = end - start == 1 && self.bytes[start] == DOT;
        proof {
            let name = self@.subrange(start as int, end as int);
            if r {
                assert(name =~= seq![DOT]);
            } else if name == seq![DOT] {
                assert(name.len() == 1 && name[0] == DOT);
            }
        }
        r
    }

    /// Whether the bytes from `start` up to `end` are two dots.
    fn is_dot_dot(&self, start: usize, end: usize) -> (r: bool)
        requires
            start <= end <= self@.len(),
        ensures
            r == (self@.subrange(start as int, end as int) == seq![DOT, DOT]),
    {
        let r = end - start == 2 && self.bytes[start] == DOT && self.bytes[start + 1] == DOT;
        proof {
            let name = self@.subrange(start as int, end as int);
            if r {
                assert(name =~= seq![DOT, DOT]);
            } else if name == seq![DOT, DOT] {
                assert(name.len() == 2 && name[0] == DOT && name[1] == DOT);
            }
        }
        r
    }

    /// The next name at `from` or behind it that makes a part: where it starts,
    /// where it ends, and where to look for the one behind it.
    fn next_name(&self, from: usize) -> (r: Option<(usize, usize, usize)>)
        requires
            from <= self@.len(),
        ensures
            match r {
                Some((start, end, next)) => {
                    &&& from <= start <= end <= next <= self@.len()
                    &&& from < next
                    &&& named_part(self@.subrange(start as int, end as int)).len() == 1
                    &&& named_parts(self@.skip(from as int)) == named_part(
                        self@.subrange(start as int, end as int),
                    ) + named_parts(self@.skip(next as int))
                },
                None => named_parts(self@.skip(from as int)).len() == 0,
            },
    {
        let mut i: usize = from;
        let ghost whole = named_parts(self@.skip(from as int));
        loop
            invariant
                from <= i <= self@.len(),
                self@ == self.bytes@,
                whole == named_parts(self@.skip(from as int)),
                whole == named_parts(self@.skip(i as int)),
            decreases self@.len() - i,
        {
            let end = self.slash_from(i);
            let ghost rest = self@.skip(i as int);
            let ghost name = self@.subrange(i as int, end as int);
            let last = end == self.bytes.len();
            let next: usize = if last {
                end
            } else {
                end + 1
            };
            proof {
                assert(rest.take(end - i) =~= name);
                if last {
                    assert(rest =~= name);
                    assert(self@.skip(next as int) =~= seq![]);
                    assert(first_slash(seq![]) == 0);
                    assert(named_part(Seq::<u8>::empty()) =~= seq![]);
                    assert(named_parts(self@.skip(next as int)) =~= seq![]);
                    assert(named_parts(rest) =~= named_part(name) + named_parts(self@.skip(next as int)));
                } else {
                    assert(rest.skip(end - i + 1) =~= self@.skip(next as int));
                }
            }
            assert(whole == named_part(name) + named_parts(self@.skip(next as int)));
            if end > i && !self.is_dot(i, end) {
                return Some((i, end, next));
            }
            assert(named_part(name) =~= seq![]);
            assert(whole =~= named_parts(self@.skip(next as int)));
            if last {
                return None;
            }
            i = next;
        }
    }

    /// Compares the parts that two names stand for: of this path the one from
    /// `i` up to `i_end`, of `other` the one from `k` up to `k_end`.
    fn compare_parts(&self, i: usize, i_end: usize, other: &PathBuf, k: usize, k_end: usize) -> (r:
        Standing)
        requires
            i <= i_end <= self@.len(),
            k <= k_end <= other@.len(),
            named_part(self@.subrange(i as int, i_end as int)).len() == 1,
            named_part(other@.subrange(k as int, k_end as int)).len() == 1,
        ensures
            ({
                let x = named_part(self@.subrange(i as int, i_end as int))[0];
                let y = named_part(other@.subrange(k as int, k_end as int))[0];
                &&& r is Before <==> part_lt()(x, y)
                &&& r is Behind <==> part_lt()(y, x)
            }),
    {
        let up = self.is_dot_dot(i, i_end);
        let other_up = other.is_dot_dot(k, k_end);
        if up && other_up {
            Standing::Same
        } else if up {
            Standing::Before
        } else if other_up {
            Standing::Behind
        } else {
            proof {
                lemma_byte_lt_is_strict();
                order::lemma_lex_standing(
                    self@.subrange(i as int, i_end as int),
                    other@.subrange(k as int, k_end as int),
                    byte_lt(),
                );
            }
            compare_bytes(&self.bytes, i, i_end, &other.bytes, k, k_end)
        }
    }

    fn compare_names(&self, other: &PathBuf) -> (r: Standing)
        ensures
            r == order::lex_standing(named_parts(self@), named_parts(other@), part_lt()),
    {
        let mut i: usize = 0;
        let mut k: usize = 0;
        let ghost whole = order::lex_standing(named_parts(self@), named_parts(other@), part_lt());
        assert(self@.skip(0) =~= self@);
        assert(other@.skip(0) =~= other@);
        loop
            invariant
                i <= self@.len(),
                k <= other@.len(),
                whole == order::lex_standing(named_parts(self@), named_parts(other@), part_lt()),
                whole == order::lex_standing(
                    named_parts(self@.skip(i as int)),
                    named_parts(other@.skip(k as int)),
                    part_lt(),
                ),
            decreases self@.len() - i,
        {
            let ghost s = named_parts(self@.skip(i as int));
            let ghost t = named_parts(other@.skip(k as int));
            match (self.next_name(i), other.next_name(k)) {
                (None, None) => {
                    return Standing::Same;
                },
                (None, Some(_)) => {
                    return Standing::Before;
                },
                (Some(_), None) => {
                    return Standing::Behind;
                },
                (Some((x, x_end, x_next)), Some((y, y_end, y_next))) => {
                    let r = self.compare_parts(x, x_end, other, y, y_end);
                    assert(s.drop_first() =~= named_parts(self@.skip(x_next as int)));
                    assert(t.drop_first() =~= named_parts(other@.skip(y_next as int)));
                    assert(s[0] == named_part(self@.subrange(x as int, x_end as int))[0]);
                    assert(t[0] == named_part(other@.subrange(y as int, y_end as int))[0]);
                    match r {
                        Standing::Same => {
                            i = x_next;
                            k = y_next;
                        },
                        _ => {
                            return r;
                        },
                    }
                },
            }
        }
    }

    fn starts_at_root(&self) -> (r: bool)
        ensures
            r == (self@.len() > 0 && self@[0] == SLASH),
    {
        self.bytes.len() > 0 && self.bytes[0] == SLASH
    }

    fn starts_with_dot(&self) -> (r: bool)
        ensures
            r == (self@.take(first_slash(self@)) == seq![DOT]),
    {
        let end = self.slash_from(0);
        assert(self@.skip(0) =~= self@);
        assert(self@.subrange(0, end as int) =~= self@.take(first_slash(self@)));
        self.is_dot(0, end)
    }

    /// Where this path stands to `other` when paths are listed by name.
    pub fn standing(&self, other: &PathBuf) -> (r: Standing)
        ensures
            r == order::lex_standing(path_parts(self@), path_parts(other@), part_lt()),
    {
        let root = self.starts_at_root();
        let dot = self.starts_with_dot();
        let other_root = other.starts_at_root();
        let other_dot = other.starts_with_dot();
        let ghost s = path_parts(self@);
        let ghost t = path_parts(other@);
        assert(self@.skip(0) =~= self@);
        assert(other@.skip(0) =~= other@);
        if root || other_root || dot || other_dot {
            assert(root || dot ==> s.drop_first() =~= named_parts(self@));
            assert(other_root || other_dot ==> t.drop_first() =~= named_parts(other@));
            assert(!(root || dot) ==> s =~= named_parts(self@));
            assert(!(other_root || other_dot) ==> t =~= named_parts(other@));
            if root && other_root {
                return self.compare_names(other);
            }
            if root && other_dot {
                return Standing::Before;
            }
            if dot && other_root {
                return Standing::Behind;
            }
            if root || dot {
                if other_dot {
                    return self.compare_names(other);
                }
                match other.next_name(0) {
                    None => Standing::Behind,
                    Some(_) => Standing::Before,
                }
            } else {
                match self.next_name(0) {
                    None => Standing::Before,
                    Some(_) => Standing::Behind,
                }
            }
        } else {
            assert(s =~= named_parts(self@));
            assert(t =~= named_parts(other@));
            self.compare_names(other)
        }
    }

    /// The last two parts that names stand for, the last one first: where each
    /// name starts and ends.
    fn last_names(&self) -> (r: (Option<(usize, usize)>, Option<(usize, usize)>))
        ensures
            ({
                let names = named_parts(self@);
                &&& r.0 is Some <==> names.len() > 0
                &&& r.1 is Some <==> names.len() > 1
                &&& r.0 matches Some((start, end)) ==> {
                    &&& start <= end <= self@.len()
                    &&& named_part(self@.subrange(start as int, end as int)) == seq![names.last()]
                }
                &&& r.1 matches Some((start, end)) ==> {
                    &&& start <= end <= self@.len()
                    &&& named_part(self@.subrange(start as int, end as int))
                        == seq![names[names.len() - 2]]
                }
            }),
    {
        let mut last: Option<(usize, usize)> = None;
        let mut before: Option<(usize, usize)> = None;
        let mut i: usize = 0;
        let ghost mut done: Seq<PathPart> = seq![];
        proof {
            assert(self@.skip(0) =~= self@);
            assert(named_parts(self@) =~= done + named_parts(self@.skip(0)));
        }
        loop
            invariant
                i <= self@.len(),
                named_parts(self@) == done + named_parts(self@.skip(i as int)),
                last is Some <==> done.len() > 0,
                before is Some <==> done.len() > 1,
                last matches Some((start, end)) ==> {
                    &&& start <= end <= self@.len()
                    &&& named_part(self@.subrange(start as int, end as int)) == seq![done.last()]
                },
                before matches Some((start, end)) ==> {
                    &&& start <= end <= self@.len()
                    &&& named_part(self@.subrange(start as int, end as int))
                        == seq![done[done.len() - 2]]
                },
            decreases self@.len() - i,
        {
            match self.next_name(i) {
                None => {
                    assert(named_parts(self@) =~= done);
                    return (last, before);
                },
                Some((start, end, next)) => {
                    before = last;
                    last = Some((start, end));
                    i = next;
                    proof {
                        let part = named_part(self@.subrange(start as int, end as int));
                        assert(part =~= seq![part[0]]);
                        done = done.push(part[0]);
                        assert(named_parts(self@) =~= done + named_parts(self@.skip(i as int)));
                    }
                },
            }
        }
    }

    /// The bytes from `start` up to `end`, unless they are `..`.
    fn plain_name(&self, start: usize, end: usize) -> (r: Option<&[u8]>)
        requires
            start <= end <= self@.len(),
            named_part(self@.subrange(start as int, end as int)).len() == 1,
        ensures
            last_name(named_part(self@.subrange(start as int, end as int))) == match r {
                Some(name) => Some(name@),
                None => None,
            },
    {
        if self.is_dot_dot(start, end) {
            None
        } else {
            Some(&self.bytes.as_slice()[start..end])
        }
    }

    /// The last name of the path, unless the path ends in `..` or has no name.
    pub fn file_name(&self) -> (r: Option<&[u8]>)
        ensures
            file_name(self@) == match r {
                Some(name) => Some(name@),
                None => None,
            },
    {
        let (last, _) = self.last_names();
        match last {
            Some((start, end)) => {
                assert(path_parts(self@).last() == named_parts(self@).last());
                self.plain_name(start, end)
            },
            None => {
                assert(path_parts(self@) =~= leading_part(self@));
                None
            },
        }
    }

    /// The last name of the path without its last part.
    pub fn parent_file_name(&self) -> (r: Option<&[u8]>)
        ensures
            parent_file_name(self@) == match r {
                Some(name) => Some(name@),
                None => None,
            },
    {
        let (last, before) = self.last_names();
        let ghost above = path_parts(self@).drop_last();
        match before {
            Some((start, end)) => {
                assert(above.last() == named_parts(self@)[named_parts(self@).len() - 2]);
                self.plain_name(start, end)
            },
            None => {
                assert(path_parts(self@).len() > 0 && named_parts(self@).len() == 1 ==> above
                    =~= leading_part(self@));
                None
            },
        }
    }

    /// What follows the last dot in the file name, unless that dot begins the name.
    pub fn extension(&self) -> (r: Option<&[u8]>)
        ensures
            extension(self@) == match r {
                Some(ext) => Some(ext@),
                None => None,
            },
    {
        match self.file_name() {
            Some(name) => {
                let mut i: usize = name.len();
                assert(name@.take(i as int) =~= name@);
                while i > 0 && name[i - 1] != DOT
                    invariant
                        i <= name@.len(),
                        last_dot(name@) == last_dot(name@.take(i as int)),
                    decreases i,
                {
                    assert(name@.take(i as int).drop_last() =~= name@.take(i - 1));
                    i = i - 1;
                }
                if i > 1 {
                    assert(name@.skip(i as int) =~= name@.subrange(i as int, name@.len() as int));
                    Some(&name[i..name.len()])
                } else {
                    None
                }
            },
            None => None,
        }
    }

    /// The extension in lower case; none where it is not UTF-8.
    pub fn lower_extension(&self) -> (r: Option<String>)
        ensures
            lower_extension(self@) == match r {
                Some(ext) => Some(ext@),
                None => None,
            },
    {
        match self.extension() {
            Some(ext) => match utf8_text(ext) {
                Some(text) => Some(to_ascii_lower(text.as_str())),
                None => None,
            },
            None => None,
        }
    }

    /// The path as text, with replacement characters where it is not UTF-8.
    pub fn display(&self) -> (r: String)
        ensures
            r@ == text::display_text(self@),
    {
        lossy(self.bytes.as_slice())
    }

    /// Whether this path may stand before `other` when paths are listed by name.
    pub fn at_most(&self, other: &PathBuf) -> (r: bool)
        ensures
            r == path_le(self@, other@),
    {
        proof {
            lemma_part_lt_is_strict();
            order::lemma_lex_standing(path_parts(self@), path_parts(other@), part_lt());
        }
        match self.standing(other) {
            Standing::Behind => false,
            _ => true,
        }
    }
}

impl Clone for PathBuf {
    fn clone(&self) -> (r: PathBuf)
        ensures
            r@ == self@,
    {
        PathBuf { bytes: vstd::slice::slice_to_vec(self.bytes.as_slice()) }
    }
}

impl From<&str> for PathBuf {
    fn from(s: &str) -> (r: PathBuf)
        ensures
            r@ == encode_utf8(s@),
    {
        PathBuf { bytes: vstd::slice::slice_to_vec(s.as_bytes()) }
    }
}

/// What `from` returns is stated on `from` itself, over the view.
impl vstd::std_specs::convert::FromSpecImpl<&str> for PathBuf {
    open spec fn obeys_from_spec() -> bool {
        false
    }

    open spec fn from_spec(s: &str) -> PathBuf {
        arbitrary()
    }
}

/// Two paths are equal where their parts are.
impl PartialEq for PathBuf {
    fn eq(&self, other: &PathBuf) -> (r: bool) {
        proof {
            lemma_part_lt_is_strict();
            order::lemma_lex_standing(path_parts(self@), path_parts(other@), part_lt());
        }
        match self.standing(other) {
            Standing::Same => true,
            _ => false,
        }
    }
}

impl vstd::std_specs::cmp::PartialEqSpecImpl for PathBuf {
    open spec fn obeys_eq_spec() -> bool {
        true
    }

    open spec fn eq_spec(&self, other: &PathBuf) -> bool {
        path_parts(self@) == path_parts(other@)
    }
}

/// A name that a file can have: not empty, without a slash, and neither `.` nor `..`.
pub open spec fn plain_name(name: Seq<u8>) -> bool {
    &&& name.len() > 0
    &&& forall|i: int| 0 <= i < name.len() ==> #[trigger] name[i] != 0x2f
    &&& name != seq![0x2eu8]
    &&& name != seq![0x2eu8, 0x2eu8]
}

/// What is called `name` in the directory `dir`.
pub open spec fn inside(dir: Seq<u8>, name: Seq<u8>) -> Seq<u8> {
    dir + seq![0x2fu8] + name
}

proof fn lemma_named_parts_inside(dir: Seq<u8>, rest: Seq<u8>)
    ensures
        named_parts(inside(dir, rest)) == named_parts(dir) + named_parts(rest),
    decreases dir.len(),
{
    let all = inside(dir, rest);
    let end = first_slash(dir);
    lemma_first_slash_bound(dir);
    assert forall|i: int| 0 <= i < end implies all[i] != SLASH by {
        assert(all[i] == dir[i]);
    }
    assert(all[end] == SLASH);
    lemma_first_slash_is(all, end);
    if end < dir.len() {
        let behind = dir.skip(end + 1);
        lemma_named_parts_inside(behind, rest);
        assert(all.take(end) =~= dir.take(end));
        assert(all.skip(end + 1) =~= inside(behind, rest));
        assert(named_parts(all) =~= named_parts(dir) + named_parts(rest));
    } else {
        assert(all.take(end) =~= dir);
        assert(all.skip(end + 1) =~= rest);
    }
}

proof fn lemma_plain_name_parts(name: Seq<u8>)
    requires
        plain_name(name),
    ensures
        named_parts(name) == seq![PathPart::Normal(name)],
        path_parts(name) == seq![PathPart::Normal(name)],
        first_slash(name) == name.len(),
{
    lemma_first_slash_is(name, name.len() as int);
    assert(name.take(name.len() as int) =~= name);
    assert(name[0] != 0x2f);
    assert(path_parts(name) =~= seq![PathPart::Normal(name)]);
}

/// The parts of a path that goes on behind a directory.
proof fn lemma_parts_inside(dir: Seq<u8>, rest: Seq<u8>)
    requires
        dir.len() > 0,
    ensures
        path_parts(inside(dir, rest)) == path_parts(dir) + named_parts(rest),
{
    let all = inside(dir, rest);
    let end = first_slash(dir);
    lemma_first_slash_bound(dir);
    assert forall|i: int| 0 <= i < end implies all[i] != SLASH by {
        assert(all[i] == dir[i]);
    }
    assert(all[end] == SLASH);
    lemma_first_slash_is(all, end);
    assert(all.take(end) =~= dir.take(end));
    assert(all[0] == dir[0]);
    lemma_named_parts_inside(dir, rest);
    assert(path_parts(all) =~= path_parts(dir) + named_parts(rest));
}

/// A file is named by what stands behind the last slash, and its directory by
/// what stands before that; a slash at the end makes no difference.
pub proof fn law_last_name_is_the_file_name(dir: Seq<u8>, name: Seq<u8>)
    requires
        plain_name(name),
    ensures
        file_name(name) == Some(name),
        file_name(inside(dir, name)) == Some(name),
        parent_file_name(inside(dir, name)) == file_name(dir),
        file_name(inside(dir, name) + seq![0x2fu8]) == Some(name),
{
    lemma_plain_name_parts(name);
    let part = PathPart::Normal(name);
    let all = inside(dir, name);
    if dir.len() > 0 {
        lemma_parts_inside(dir, name);
        assert(path_parts(all).drop_last() =~= path_parts(dir));
    } else {
        lemma_named_parts_inside(dir, name);
        assert(all[0] == 0x2f);
        lemma_first_slash_is(dir, 0);
        assert(named_parts(dir) =~= seq![]);
        assert(path_parts(all) =~= seq![PathPart::RootDir, part]);
        assert(path_parts(all).drop_last() =~= seq![PathPart::RootDir]);
        assert(dir.take(0) =~= seq![]);
        assert(leading_part(dir) =~= seq![]);
        assert(path_parts(dir) =~= seq![]);
    }
    let empty = Seq::<u8>::empty();
    assert(inside(all, empty) =~= all + seq![0x2fu8]);
    lemma_parts_inside(all, empty);
    lemma_first_slash_is(empty, 0);
    assert(named_parts(empty) =~= seq![]);
    assert(path_parts(all) + named_parts(empty) =~= path_parts(all));
}

proof fn lemma_last_dot_at(name: Seq<u8>, at: int)
    requires
        0 <= at < name.len(),
        name[at] == DOT,
        forall|i: int| at < i < name.len() ==> #[trigger] name[i] != DOT,
    ensures
        last_dot(name) == at,
    decreases name.len(),
{
    if at < name.len() - 1 {
        let front = name.drop_last();
        assert(name[name.len() - 1] != DOT);
        assert forall|i: int| at < i < front.len() implies #[trigger] front[i] != DOT by {
            assert(name[i] != DOT);
        }
        lemma_last_dot_at(front, at);
    }
}

proof fn lemma_no_last_dot(name: Seq<u8>)
    requires
        forall|i: int| 0 <= i < name.len() ==> #[trigger] name[i] != DOT,
    ensures
        last_dot(name) == -1,
    decreases name.len(),
{
    if name.len() > 0 {
        let front = name.drop_last();
        assert(name[name.len() - 1] != DOT);
        assert forall|i: int| 0 <= i < front.len() implies #[trigger] front[i] != DOT by {
            assert(name[i] != DOT);
        }
        lemma_no_last_dot(front);
    }
}

/// The extension is what stands behind the last dot of the name.
pub proof fn law_extension_is_behind_the_last_dot(dir: Seq<u8>, stem: Seq<u8>, ext: Seq<u8>)
    requires
        stem.len() > 0,
        plain_name(stem + seq![0x2eu8] + ext),
        forall|i: int| 0 <= i < ext.len() ==> #[trigger] ext[i] != 0x2e,
    ensures
        extension(stem + seq![0x2eu8] + ext) == Some(ext),
        extension(inside(dir, stem + seq![0x2eu8] + ext)) == Some(ext),
{
    let name = stem + seq![0x2eu8] + ext;
    law_last_name_is_the_file_name(dir, name);
    let at = stem.len() as int;
    assert forall|i: int| at < i < name.len() implies #[trigger] name[i] != DOT by {
        assert(name[i] == ext[i - at - 1]);
    }
    lemma_last_dot_at(name, at);
    assert(name.skip(at + 1) =~= ext);
}

/// The extension is compared in lower case: that of a name that ends in a dot and
/// a text is the text with its capitals made small.
pub proof fn law_extension_is_read_in_lower_case(dir: Seq<u8>, stem: Seq<u8>, ext: Seq<char>)
    requires
        stem.len() > 0,
        plain_name(stem + seq![0x2eu8] + encode_utf8(ext)),
        forall|i: int| 0 <= i < encode_utf8(ext).len() ==> #[trigger] encode_utf8(ext)[i] != 0x2e,
    ensures
        lower_extension(inside(dir, stem + seq![0x2eu8] + encode_utf8(ext))) matches Some(lower)
            && lower.len() == ext.len() && forall|i: int|
            0 <= i < ext.len() ==> #[trigger] lower[i] == if 'A' <= ext[i] && ext[i] <= 'Z' {
                (ext[i] as u32 + 32) as char
            } else {
                ext[i]
            },
{
    law_extension_is_behind_the_last_dot(dir, stem, encode_utf8(ext));
    law_text_path_reads_as_its_text(ext);
}

/// A name without a dot has no extension, nor has one whose only dot begins it.
pub proof fn law_name_without_a_dot_has_no_extension(dir: Seq<u8>, name: Seq<u8>)
    requires
        plain_name(name),
        forall|i: int| 0 < i < name.len() ==> #[trigger] name[i] != 0x2e,
    ensures
        extension(name) is None,
        extension(inside(dir, name)) is None,
{
    law_last_name_is_the_file_name(dir, name);
    if name[0] == DOT {
        lemma_last_dot_at(name, 0);
    } else {
        lemma_no_last_dot(name);
    }
}

proof fn lemma_lex_behind_prefix<T>(
    prefix: Seq<T>,
    a: Seq<T>,
    b: Seq<T>,
    lt: spec_fn(T, T) -> bool,
)
    requires
        order::strict_order(lt),
    ensures
        order::lex_le(prefix + a, prefix + b, lt) == order::lex_le(a, b, lt),
    decreases prefix.len(),
{
    if prefix.len() == 0 {
        assert(prefix + a =~= a);
        assert(prefix + b =~= b);
    } else {
        let rest = prefix.drop_first();
        assert((prefix + a).drop_first() =~= rest + a);
        assert((prefix + b).drop_first() =~= rest + b);
        assert((prefix + a)[0] == prefix[0] && (prefix + b)[0] == prefix[0]);
        assert(!lt(prefix[0], prefix[0]));
        lemma_lex_behind_prefix(rest, a, b, lt);
    }
}

/// The names are the same up to `k`, where `a` ends or has the lower byte.
pub open spec fn lower_byte_at(a: Seq<u8>, b: Seq<u8>, k: int) -> bool {
    &&& 0 <= k <= a.len()
    &&& k <= b.len()
    &&& a.take(k) == b.take(k)
    &&& k == a.len() || (k < b.len() && a[k] < b[k])
}

proof fn lemma_bytes_in_order(a: Seq<u8>, b: Seq<u8>)
    ensures
        order::lex_le(a, b, byte_lt()) <==> exists|k: int| #[trigger] lower_byte_at(a, b, k),
{
    order::law_first_difference_decides(a, b, byte_lt());
    if order::lex_le(a, b, byte_lt()) {
        let k = choose|k: int| #[trigger] order::first_differ_at(a, b, k, byte_lt());
        assert(a.take(k) =~= b.take(k));
        assert(lower_byte_at(a, b, k));
    }
    if exists|k: int| #[trigger] lower_byte_at(a, b, k) {
        let k = choose|k: int| #[trigger] lower_byte_at(a, b, k);
        assert forall|i: int| 0 <= i < k implies #[trigger] a[i] == b[i] by {
            assert(a.take(k)[i] == b.take(k)[i]);
        }
        assert(order::first_differ_at(a, b, k, byte_lt()));
    }
}

/// What is in one directory stands in the order of its names: the first byte in
/// which they differ decides. What is below two of them stands as they do, and a
/// directory comes before what is in it.
pub proof fn law_paths_stand_in_order_of_their_names(
    dir: Seq<u8>,
    a: Seq<u8>,
    b: Seq<u8>,
    below_a: Seq<u8>,
    below_b: Seq<u8>,
)
    requires
        dir.len() > 0,
        plain_name(a),
        plain_name(b),
    ensures
        path_le(inside(dir, a), inside(dir, b)) <==> exists|k: int| #[trigger]
            lower_byte_at(a, b, k),
        a != b ==> (path_le(inside(inside(dir, a), below_a), inside(inside(dir, b), below_b))
            <==> path_le(inside(dir, a), inside(dir, b))),
        path_le(dir, inside(dir, a)),
        !path_le(inside(dir, a), dir),
{
    let lt = part_lt();
    let parts = path_parts(dir);
    let x = PathPart::Normal(a);
    let y = PathPart::Normal(b);
    lemma_part_lt_is_strict();
    lemma_byte_lt_is_strict();
    lemma_plain_name_parts(a);
    lemma_plain_name_parts(b);
    lemma_parts_inside(dir, a);
    lemma_parts_inside(dir, b);
    lemma_lex_behind_prefix(parts, seq![x], seq![y], lt);
    lemma_bytes_in_order(a, b);
    order::lemma_lex_standing(a, b, byte_lt());
    assert(seq![x].drop_first() =~= seq![]);
    assert(order::lex_le(seq![x].drop_first(), seq![y].drop_first(), lt));
    assert(order::lex_le(seq![x], seq![y], lt) == order::lex_le(a, b, byte_lt()));
    lemma_parts_inside(inside(dir, a), below_a);
    lemma_parts_inside(inside(dir, b), below_b);
    let more_a = seq![x] + named_parts(below_a);
    let more_b = seq![y] + named_parts(below_b);
    assert(parts + seq![x] + named_parts(below_a) =~= parts + more_a);
    assert(parts + seq![y] + named_parts(below_b) =~= parts + more_b);
    lemma_lex_behind_prefix(parts, more_a, more_b, lt);
    let none = Seq::<PathPart>::empty();
    assert(parts + none =~= parts);
    lemma_lex_behind_prefix(parts, none, seq![x], lt);
    lemma_lex_behind_prefix(parts, seq![x], none, lt);
}

/// A doubled slash, a slash at the end and a `.` behind the first name make no
/// difference to a path, and a path that ends in `..` has no file name.
pub proof fn law_dots_and_slashes_make_no_name(dir: Seq<u8>, rest: Seq<u8>)
    requires
        dir.len() > 0,
    ensures
        path_parts(dir + seq![0x2fu8]) == path_parts(dir),
        path_parts(inside(dir, seq![0x2eu8])) == path_parts(dir),
        path_parts(inside(dir + seq![0x2fu8], rest)) == path_parts(inside(dir, rest)),
        path_parts(inside(inside(dir, seq![0x2eu8]), rest)) == path_parts(inside(dir, rest)),
        file_name(inside(dir, seq![0x2eu8, 0x2eu8])) is None,
{
    let empty = Seq::<u8>::empty();
    let dot = seq![0x2eu8];
    let dots = seq![0x2eu8, 0x2eu8];
    assert(inside(dir, empty) =~= dir + seq![0x2fu8]);
    lemma_first_slash_is(empty, 0);
    lemma_first_slash_is(dot, 1);
    lemma_first_slash_is(dots, 2);
    assert(named_parts(empty) =~= seq![]);
    assert(named_parts(dot) =~= seq![]);
    assert(dots.len() == 2 && dot.len() == 1);
    assert(named_parts(dots) =~= seq![PathPart::ParentDir]);
    lemma_parts_inside(dir, empty);
    lemma_parts_inside(dir, dot);
    lemma_parts_inside(dir, dots);
    lemma_parts_inside(dir, rest);
    lemma_parts_inside(dir + seq![0x2fu8], rest);
    lemma_parts_inside(inside(dir, dot), rest);
    assert(path_parts(dir) + named_parts(empty) =~= path_parts(dir));
    assert(path_parts(dir) + named_parts(dot) =~= path_parts(dir));
}

/// Paths from the root stand before all others.
pub proof fn law_rooted_paths_stand_first(a: Seq<u8>, b: Seq<u8>)
    requires
        a.len() > 0,
        a[0] == 0x2f,
        b.len() > 0,
        b[0] != 0x2f,
    ensures
        path_le(a, b),
        !path_le(b, a),
{
    lemma_part_lt_is_strict();
    lemma_first_slash_bound(b);
    let end = first_slash(b);
    let name = b.take(end);
    assert(name.len() > 0);
    let lt = part_lt();
    if end == b.len() {
        assert(name =~= b);
    }
    assert(path_parts(b).len() > 0);
    assert(path_parts(a)[0] == PathPart::RootDir);
    assert(path_parts(b)[0] != PathPart::RootDir);
    assert(lt(path_parts(a)[0], path_parts(b)[0]));
    assert(!lt(path_parts(b)[0], path_parts(a)[0]));
}

} // verus!
