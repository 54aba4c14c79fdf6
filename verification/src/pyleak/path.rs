//! Paths of files: how they are shown, and how they are ordered.

use vstd::prelude::*;

verus! {

/// One component of a path. A name or a prefix is held as its bytes.
#[derive(Debug)]
pub enum PathPart {
    Prefix(Vec<u8>),
    Root,
    Current,
    Parent,
    Name(Vec<u8>),
}

/// What a component says: its kind, and the bytes of its name.
pub struct PartText {
    pub rank: int,
    pub bytes: Seq<u8>,
}

impl View for PathPart {
    type V = PartText;

    open spec fn view(&self) -> PartText {
        match *self {
            PathPart::Prefix(bytes) => PartText { rank: 0, bytes: bytes@ },
            PathPart::Root => PartText { rank: 1, bytes: seq![] },
            PathPart::Current => PartText { rank: 2, bytes: seq![] },
            PathPart::Parent => PartText { rank: 3, bytes: seq![] },
            PathPart::Name(bytes) => PartText { rank: 4, bytes: bytes@ },
        }
    }
}

/// A path of a file: its components, and the text that shows it.
#[derive(Debug)]
pub struct FilePath {
    pub parts: Vec<PathPart>,
    pub text: String,
}

/// What a path says.
pub struct PathText {
    pub parts: Seq<PartText>,
    pub text: Seq<char>,
}

/// What components say.
pub open spec fn part_texts(parts: Seq<PathPart>) -> Seq<PartText> {
    Seq::new(parts.len(), |i: int| parts[i]@)
}

impl View for FilePath {
    type V = PathText;

    open spec fn view(&self) -> PathText {
        PathText { parts: part_texts(self.parts@), text: self.text@ }
    }
}

/// What paths say.
pub open spec fn path_texts(paths: Seq<FilePath>) -> Seq<PathText> {
    Seq::new(paths.len(), |i: int| paths[i]@)
}

fn copy_bytes(bytes: &Vec<u8>) -> (r: Vec<u8>)
    ensures
        r@ == bytes@,
{
    let mut r: Vec<u8> = Vec::new();
    let mut i: usize = 0;
    while i < bytes.len()
        invariant
            i <= bytes@.len(),
            r@ == bytes@.take(i as int),
        decreases bytes@.len() - i,
    {
        r.push(bytes[i]);
        i = i + 1;
        assert(r@ =~= bytes@.take(i as int));
    }
    assert(r@ =~= bytes@);
    r
}

impl Clone for PathPart {
    fn clone(&self) -> (r: Self)
        ensures
            r@ == self@,
    {
        match self {
            PathPart::Prefix(bytes) => PathPart::Prefix(copy_bytes(bytes)),
            PathPart::Root => PathPart::Root,
            PathPart::Current => PathPart::Current,
            PathPart::Parent => PathPart::Parent,
            PathPart::Name(bytes) => PathPart::Name(copy_bytes(bytes)),
        }
    }
}

impl Clone for FilePath {
    fn clone(&self) -> (r: Self)
        ensures
            r@ == self@,
    {
        let mut parts: Vec<PathPart> = Vec::new();
        let mut i: usize = 0;
        while i < self.parts.len()
            invariant
                i <= self.parts@.len(),
                parts@.len() == i,
                forall|k: int| 0 <= k < i ==> (#[trigger] parts@[k])@ == self.parts@[k]@,
            decreases self.parts@.len() - i,
        {
            parts.push(self.parts[i].clone());
            i = i + 1;
        }
        assert(part_texts(parts@) =~= part_texts(self.parts@));
        FilePath { parts, text: self.text.clone() }
    }
}

// ---- order ---------------------------------------------------------------------------------

/// Whether `a` comes before `b` byte by byte.
pub open spec fn bytes_precede(a: Seq<u8>, b: Seq<u8>) -> bool
    decreases a.len(),
{
    if b.len() == 0 {
        false
    } else if a.len() == 0 {
        true
    } else if a[0] != b[0] {
        a[0] < b[0]
    } else {
        bytes_precede(a.drop_first(), b.drop_first())
    }
}

/// Whether component `a` comes before component `b`: by kind, then by bytes.
pub open spec fn part_precedes(a: PartText, b: PartText) -> bool {
    a.rank < b.rank || (a.rank == b.rank && bytes_precede(a.bytes, b.bytes))
}

/// Whether the components `a` come before the components `b`, compared one by one.
pub open spec fn parts_precede(a: Seq<PartText>, b: Seq<PartText>) -> bool
    decreases a.len(),
{
    if b.len() == 0 {
        false
    } else if a.len() == 0 {
        true
    } else if a[0] != b[0] {
        part_precedes(a[0], b[0])
    } else {
        parts_precede(a.drop_first(), b.drop_first())
    }
}

/// Whether path `a` comes before path `b`.
pub open spec fn path_precedes(a: PathText, b: PathText) -> bool {
    parts_precede(a.parts, b.parts)
}

/// Whether two paths name the same file in the same way.
pub open spec fn same_path(a: PathText, b: PathText) -> bool {
    a.parts == b.parts
}

proof fn lemma_bytes_total(a: Seq<u8>, b: Seq<u8>)
    ensures
        a == b ==> !bytes_precede(a, b),
        a != b ==> (bytes_precede(a, b) <==> !bytes_precede(b, a)),
    decreases a.len(),
{
    if a.len() > 0 && b.len() > 0 {
        lemma_bytes_total(a.drop_first(), b.drop_first());
        if a[0] == b[0] && a.drop_first() == b.drop_first() {
            assert(a =~= seq![a[0]] + a.drop_first());
            assert(b =~= seq![b[0]] + b.drop_first());
        }
    } else if a.len() == 0 && b.len() == 0 {
        assert(a =~= b);
    }
}

proof fn lemma_bytes_transitive(a: Seq<u8>, b: Seq<u8>, c: Seq<u8>)
    requires
        bytes_precede(a, b),
        bytes_precede(b, c),
    ensures
        bytes_precede(a, c),
    decreases a.len(),
{
    if a.len() > 0 && b.len() > 0 && c.len() > 0 && a[0] == b[0] && b[0] == c[0] {
        lemma_bytes_transitive(a.drop_first(), b.drop_first(), c.drop_first());
    }
}

proof fn lemma_part_total(a: PartText, b: PartText)
    ensures
        a == b ==> !part_precedes(a, b),
        a != b ==> (part_precedes(a, b) <==> !part_precedes(b, a)),
{
    lemma_bytes_total(a.bytes, b.bytes);
}

proof fn lemma_part_transitive(a: PartText, b: PartText, c: PartText)
    requires
        part_precedes(a, b),
        part_precedes(b, c),
    ensures
        part_precedes(a, c),
{
    if a.rank == b.rank && b.rank == c.rank {
        lemma_bytes_transitive(a.bytes, b.bytes, c.bytes);
    }
}

proof fn lemma_parts_total(a: Seq<PartText>, b: Seq<PartText>)
    ensures
        a == b ==> !parts_precede(a, b),
        a != b ==> (parts_precede(a, b) <==> !parts_precede(b, a)),
    decreases a.len(),
{
    if a.len() > 0 && b.len() > 0 {
        lemma_part_total(a[0], b[0]);
        lemma_parts_total(a.drop_first(), b.drop_first());
        if a[0] == b[0] && a.drop_first() == b.drop_first() {
            assert(a =~= seq![a[0]] + a.drop_first());
            assert(b =~= seq![b[0]] + b.drop_first());
        }
    } else if a.len() == 0 && b.len() == 0 {
        assert(a =~= b);
    }
}

proof fn lemma_parts_transitive(a: Seq<PartText>, b: Seq<PartText>, c: Seq<PartText>)
    requires
        parts_precede(a, b),
        parts_precede(b, c),
    ensures
        parts_precede(a, c),
    decreases a.len(),
{
    if a.len() > 0 && b.len() > 0 && c.len() > 0 {
        if a[0] == b[0] && b[0] == c[0] {
            lemma_parts_transitive(a.drop_first(), b.drop_first(), c.drop_first());
        } else if a[0] != b[0] && b[0] != c[0] {
            lemma_part_transitive(a[0], b[0], c[0]);
            lemma_part_total(a[0], c[0]);
        }
    }
}

/// Of two paths exactly one of three things holds: they are the same, the first comes
/// before the second, or the second before the first.
pub proof fn law_path_order_total(a: PathText, b: PathText)
    ensures
        same_path(a, b) ==> !path_precedes(a, b) && !path_precedes(b, a),
        !same_path(a, b) ==> (path_precedes(a, b) <==> !path_precedes(b, a)),
{
    lemma_parts_total(a.parts, b.parts);
    lemma_parts_total(b.parts, a.parts);
}

/// The order of paths is transitive.
pub proof fn law_path_order_transitive(a: PathText, b: PathText, c: PathText)
    requires
        path_precedes(a, b),
        path_precedes(b, c),
    ensures
        path_precedes(a, c),
{
    lemma_parts_transitive(a.parts, b.parts, c.parts);
}

/// How two things stand to each other in an order.
#[derive(Debug, Clone, Copy, PartialEq, Eq, Structural)]
pub enum Side {
    Before,
    Same,
    After,
}

/// How the bytes `a` stand to the bytes `b`.
fn bytes_side(a: &Vec<u8>, b: &Vec<u8>) -> (r: Side)
    ensures
        r is Before <==> bytes_precede(a@, b@),
        r is Same <==> a@ == b@,
{
    let mut i: usize = 0;
    assert(a@.skip(0) =~= a@);
    assert(b@.skip(0) =~= b@);
    while i < a.len() && i < b.len()
        invariant
            i <= a@.len(),
            i <= b@.len(),
            forall|k: int| 0 <= k < i ==> a@[k] == b@[k],
            bytes_precede(a@, b@) == bytes_precede(a@.skip(i as int), b@.skip(i as int)),
        decreases a@.len() - i,
    {
        if a[i] != b[i] {
            return if a[i] < b[i] {
                Side::Before
            } else {
                Side::After
            };
        }
        assert(a@.skip(i as int).drop_first() =~= a@.skip(i + 1));
        assert(b@.skip(i as int).drop_first() =~= b@.skip(i + 1));
        i = i + 1;
    }
    if i < b.len() {
        Side::Before
    } else if i < a.len() {
        Side::After
    } else {
        assert(a@ =~= b@);
        proof {
            lemma_bytes_total(a@, b@);
        }
        Side::Same
    }
}

fn rank_of(part: &PathPart) -> (r: u8)
    ensures
        r == part@.rank,
{
    match part {
        PathPart::Prefix(_) => 0,
        PathPart::Root => 1,
        PathPart::Current => 2,
        PathPart::Parent => 3,
        PathPart::Name(_) => 4,
    }
}

/// How component `a` stands to component `b`.
fn part_side(a: &PathPart, b: &PathPart) -> (r: Side)
    ensures
        r is Before <==> part_precedes(a@, b@),
        r is Same <==> a@ == b@,
{
    match (a, b) {
        (PathPart::Prefix(x), PathPart::Prefix(y)) => bytes_side(x, y),
        (PathPart::Name(x), PathPart::Name(y)) => bytes_side(x, y),
        _ => {
            let x = rank_of(a);
            let y = rank_of(b);
            if x < y {
                Side::Before
            } else if y < x {
                Side::After
            } else {
                assert(a@.bytes =~= b@.bytes);
                Side::Same
            }
        },
    }
}

/// How path `a` stands to path `b`.
pub fn path_side(a: &FilePath, b: &FilePath) -> (r: Side)
    ensures
        r is Before <==> path_precedes(a@, b@),
        r is Same <==> same_path(a@, b@),
        r is After <==> path_precedes(b@, a@),
{
    let ghost x = part_texts(a.parts@);
    let ghost y = part_texts(b.parts@);
    proof {
        law_path_order_total(a@, b@);
    }
    let mut i: usize = 0;
    assert(x.skip(0) =~= x);
    assert(y.skip(0) =~= y);
    while i < a.parts.len() && i < b.parts.len()
        invariant
            x == part_texts(a.parts@),
            y == part_texts(b.parts@),
            i <= a.parts@.len(),
            i <= b.parts@.len(),
            same_path(a@, b@) ==> !path_precedes(a@, b@) && !path_precedes(b@, a@),
            !same_path(a@, b@) ==> (path_precedes(a@, b@) <==> !path_precedes(b@, a@)),
            forall|k: int| 0 <= k < i ==> x[k] == y[k],
            parts_precede(x, y) == parts_precede(x.skip(i as int), y.skip(i as int)),
        decreases a.parts@.len() - i,
    {
        assert(x[i as int] == a.parts@[i as int]@);
        assert(y[i as int] == b.parts@[i as int]@);
        match part_side(&a.parts[i], &b.parts[i]) {
            Side::Same => {
                assert(x.skip(i as int).drop_first() =~= x.skip(i + 1));
                assert(y.skip(i as int).drop_first() =~= y.skip(i + 1));
            },
            side => {
                return side;
            },
        }
        i = i + 1;
    }
    if i < b.parts.len() {
        Side::Before
    } else if i < a.parts.len() {
        Side::After
    } else {
        assert(x =~= y);
        Side::Same
    }
}

// ---- the name of a file --------------------------------------------------------------------

/// The position of the last dot among the first `n` bytes of a name.
pub open spec fn last_dot(name: Seq<u8>, n: int) -> Option<int>
    decreases n,
{
    if n <= 0 {
        None
    } else if name[n - 1] == 46 {
        Some(n - 1)
    } else {
        last_dot(name, n - 1)
    }
}

/// A name without its extension: what stands before its last dot, unless nothing does.
pub open spec fn stem_of(name: Seq<u8>) -> Seq<u8> {
    match last_dot(name, name.len() as int) {
        Some(dot) => if dot > 0 {
            name.take(dot)
        } else {
            name
        },
        None => name,
    }
}

/// The name that a path ends in, without its extension; `None` if it does not end in a name.
pub open spec fn path_stem(path: PathText) -> Option<Seq<u8>> {
    if path.parts.len() > 0 && path.parts.last().rank == 4 {
        Some(stem_of(path.parts.last().bytes))
    } else {
        None
    }
}

/// The bytes of the name that a path ends in, without its extension; `None` if it does not end
/// in a name.
pub fn file_stem(path: &FilePath) -> (r: Option<Vec<u8>>)
    ensures
        (match r {
            Some(bytes) => Some(bytes@),
            None => None,
        }) == path_stem(path@),
{
    let count: usize = path.parts.len();
    if count == 0 {
        return None;
    }
    assert(path@.parts.last() == path.parts@[count - 1]@);
    match &path.parts[count - 1] {
        PathPart::Name(name) => {
            let mut stem = copy_bytes(name);
            let mut n: usize = name.len();
            while n > 0 && name[n - 1] != 46
                invariant
                    n <= name@.len(),
                    last_dot(name@, name@.len() as int) == last_dot(name@, n as int),
                decreases n,
            {
                n = n - 1;
            }
            if n > 1 {
                stem.truncate(n - 1);
                assert(stem@ =~= stem_of(name@));
            }
            Some(stem)
        },
        _ => None,
    }
}

// ---- paths, byte by byte -------------------------------------------------------------------

/// Bytes come before others at the first place where they differ, or where they end first.
pub proof fn law_bytes_precede(a: Seq<u8>, b: Seq<u8>, k: int)
    requires
        0 <= k <= a.len(),
        k <= b.len(),
        forall|m: int| 0 <= m < k ==> a[m] == b[m],
    ensures
        k == a.len() && k < b.len() ==> bytes_precede(a, b),
        k == b.len() ==> !bytes_precede(a, b),
        k < a.len() && k < b.len() && a[k] < b[k] ==> bytes_precede(a, b),
        k < a.len() && k < b.len() && b[k] < a[k] ==> !bytes_precede(a, b),
    decreases k,
{
    if k > 0 {
        assert(a[0] == b[0]);
        let x = a.drop_first();
        let y = b.drop_first();
        assert forall|m: int| 0 <= m < k - 1 implies x[m] == y[m] by {
            assert(a[m + 1] == b[m + 1]);
        }
        law_bytes_precede(x, y, k - 1);
    }
}

/// A path comes before another at the first component where they differ, or where it ends
/// first. Of two components the kind decides, then the bytes.
pub proof fn law_path_precedes(a: PathText, b: PathText, k: int)
    requires
        0 <= k <= a.parts.len(),
        k <= b.parts.len(),
        forall|m: int| 0 <= m < k ==> a.parts[m] == b.parts[m],
    ensures
        k == a.parts.len() && k < b.parts.len() ==> path_precedes(a, b),
        k == b.parts.len() ==> !path_precedes(a, b),
        k < a.parts.len() && k < b.parts.len() && a.parts[k].rank < b.parts[k].rank
            ==> path_precedes(a, b),
        k < a.parts.len() && k < b.parts.len() && b.parts[k].rank < a.parts[k].rank
            ==> !path_precedes(a, b),
        k < a.parts.len() && k < b.parts.len() && a.parts[k].rank == b.parts[k].rank
            && a.parts[k].bytes != b.parts[k].bytes ==> (path_precedes(a, b) <==> bytes_precede(
            a.parts[k].bytes,
            b.parts[k].bytes,
        )),
{
    lemma_parts_precede(a.parts, b.parts, k);
}

proof fn lemma_parts_precede(a: Seq<PartText>, b: Seq<PartText>, k: int)
    requires
        0 <= k <= a.len(),
        k <= b.len(),
        forall|m: int| 0 <= m < k ==> a[m] == b[m],
    ensures
        k == a.len() && k < b.len() ==> parts_precede(a, b),
        k == b.len() ==> !parts_precede(a, b),
        k < a.len() && k < b.len() && a[k] != b[k] ==> (parts_precede(a, b) <==> part_precedes(
            a[k],
            b[k],
        )),
    decreases k,
{
    if k > 0 {
        assert(a[0] == b[0]);
        let x = a.drop_first();
        let y = b.drop_first();
        assert forall|m: int| 0 <= m < k - 1 implies x[m] == y[m] by {
            assert(a[m + 1] == b[m + 1]);
        }
        lemma_parts_precede(x, y, k - 1);
    }
}

/// The kinds of components stand in this order: a prefix, the root, `.`, `..` and a name. A
/// component shows its own bytes.
pub proof fn law_ranks(bytes: Vec<u8>, other: Vec<u8>)
    ensures
        PathPart::Prefix(bytes)@.rank < PathPart::Root@.rank,
        PathPart::Root@.rank < PathPart::Current@.rank,
        PathPart::Current@.rank < PathPart::Parent@.rank,
        PathPart::Parent@.rank < PathPart::Name(other)@.rank,
        PathPart::Prefix(bytes)@.bytes == bytes@,
        PathPart::Name(other)@.bytes == other@,
{
}

/// The stem of a name is what stands before its last dot, where anything does; a name without
/// a dot, or with none but a leading one, is its own stem. A path that does not end in a name
/// has none.
pub proof fn law_path_stem(path: PathText, dot: int)
    requires
        path.parts.len() > 0,
    ensures
        path.parts.last().rank != 4 ==> path_stem(path) is None,
        path.parts.last().rank == 4 ==> {
            let name = path.parts.last().bytes;
            &&& 0 < dot < name.len() && name[dot] == 46 && (forall|k: int|
                dot < k < name.len() ==> #[trigger] name[k] != 46) ==> path_stem(path) == Some(
                name.take(dot),
            )
            &&& (forall|k: int| 0 < k < name.len() ==> #[trigger] name[k] != 46) ==> path_stem(
                path,
            ) == Some(name)
        },
{
    let name = path.parts.last().bytes;
    lemma_last_dot(name, name.len() as int);
}

proof fn lemma_last_dot(name: Seq<u8>, n: int)
    requires
        0 <= n <= name.len(),
    ensures
        match last_dot(name, n) {
            Some(d) => 0 <= d < n && name[d] == 46 && forall|k: int|
                d < k < n ==> #[trigger] name[k] != 46,
            None => forall|k: int| 0 <= k < n ==> #[trigger] name[k] != 46,
        },
    decreases n,
{
    if n > 0 {
        lemma_last_dot(name, n - 1);
    }
}

} // verus!
