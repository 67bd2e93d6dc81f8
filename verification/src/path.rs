//! Paths of a Unix file system: bytes, taken apart into components.
//!
//! Two paths are the same, one begins with another, and one sorts before
//! another by their components: repeated and trailing slashes do not count, nor
//! does `.` anywhere but at the start.
use crate::order;
use crate::text;
use vstd::prelude::*;

verus! {

pub const SLASH: u8 = 47;

pub const DOT: u8 = 46;

/// One step of a path.
#[verifier::ext_equal]
pub enum Step {
    Root,
    Here,
    Up,
    Name(Seq<u8>),
}

/// The step that one piece between slashes stands for. A `.` counts only in
/// front.
pub open spec fn piece_step(piece: Seq<u8>, front: bool) -> Option<Step> {
    if piece.len() == 0 {
        None
    } else if piece == seq![DOT] {
        if front {
            Some(Step::Here)
        } else {
            None
        }
    } else if piece == seq![DOT, DOT] {
        Some(Step::Up)
    } else {
        Some(Step::Name(piece))
    }
}

/// The steps of a list of pieces, whose first one is in front if `front`.
pub open spec fn piece_steps(pieces: Seq<Seq<u8>>, front: bool) -> Seq<Step>
    decreases pieces.len(),
{
    if pieces.len() == 0 {
        Seq::empty()
    } else {
        let rest = piece_steps(pieces.drop_last(), front);
        match piece_step(pieces.last(), front && pieces.len() == 1) {
            Some(s) => rest.push(s),
            None => rest,
        }
    }
}

/// The steps of a path.
pub open spec fn steps(raw: Seq<u8>) -> Seq<Step> {
    let names = piece_steps(text::pieces(raw, SLASH), true);
    if absolute(raw) {
        seq![Step::Root] + names
    } else {
        names
    }
}

/// Whether a path starts at the root.
pub open spec fn absolute(raw: Seq<u8>) -> bool {
    raw.len() > 0 && raw[0] == SLASH
}

/// Whether two paths are the same.
pub open spec fn same(a: Seq<u8>, b: Seq<u8>) -> bool {
    steps(a) == steps(b)
}

/// Whether `a` is `b` or lies below it.
pub open spec fn below(a: Seq<u8>, b: Seq<u8>) -> bool {
    text::begins_with(steps(a), steps(b))
}

/// Dictionary order of bytes.
pub open spec fn bytes_before(a: Seq<u8>, b: Seq<u8>) -> bool
    decreases a.len(),
{
    if b.len() == 0 {
        false
    } else if a.len() == 0 {
        true
    } else if a[0] == b[0] {
        bytes_before(a.skip(1), b.skip(1))
    } else {
        a[0] < b[0]
    }
}

/// Root before `.` before `..` before names, which are in dictionary order.
pub open spec fn step_before(a: Step, b: Step) -> bool {
    match (a, b) {
        (Step::Name(x), Step::Name(y)) => bytes_before(x, y),
        (_, _) => step_rank(a) < step_rank(b),
    }
}

pub open spec fn step_rank(s: Step) -> int {
    match s {
        Step::Root => 0,
        Step::Here => 1,
        Step::Up => 2,
        Step::Name(_) => 3,
    }
}

/// Dictionary order of steps.
pub open spec fn steps_before(a: Seq<Step>, b: Seq<Step>) -> bool
    decreases a.len(),
{
    if b.len() == 0 {
        false
    } else if a.len() == 0 {
        true
    } else if a[0] == b[0] {
        steps_before(a.skip(1), b.skip(1))
    } else {
        step_before(a[0], b[0])
    }
}

/// Whether path `a` sorts before path `b`.
pub open spec fn before(a: Seq<u8>, b: Seq<u8>) -> bool {
    steps_before(steps(a), steps(b))
}

pub proof fn lemma_bytes_one_way(a: Seq<u8>, b: Seq<u8>)
    requires
        bytes_before(a, b),
    ensures
        !bytes_before(b, a),
    decreases a.len(),
{
    if a.len() > 0 && b.len() > 0 && a[0] == b[0] {
        lemma_bytes_one_way(a.skip(1), b.skip(1));
    }
}

pub proof fn lemma_bytes_chained(a: Seq<u8>, b: Seq<u8>, c: Seq<u8>)
    requires
        !bytes_before(b, a),
        !bytes_before(c, b),
    ensures
        !bytes_before(c, a),
    decreases a.len(),
{
    if a.len() > 0 && b.len() > 0 && c.len() > 0 && a[0] == b[0] && b[0] == c[0] {
        lemma_bytes_chained(a.skip(1), b.skip(1), c.skip(1));
    }
}

/// Of two different byte strings one comes first.
pub proof fn lemma_bytes_total(a: Seq<u8>, b: Seq<u8>)
    requires
        !bytes_before(a, b),
        !bytes_before(b, a),
    ensures
        a == b,
    decreases a.len(),
{
    if a.len() > 0 && b.len() > 0 {
        lemma_bytes_total(a.skip(1), b.skip(1));
        assert(a =~= seq![a[0]] + a.skip(1));
        assert(b =~= seq![b[0]] + b.skip(1));
    } else {
        assert(a =~= b);
    }
}

proof fn lemma_step_total(a: Step, b: Step)
    ensures
        step_before(a, b) ==> !step_before(b, a),
        !step_before(a, b) && !step_before(b, a) ==> a == b,
{
    if let (Step::Name(x), Step::Name(y)) = (a, b) {
        if bytes_before(x, y) {
            lemma_bytes_one_way(x, y);
        } else if !bytes_before(y, x) {
            lemma_bytes_total(x, y);
        }
    }
}

proof fn lemma_step_chained(a: Step, b: Step, c: Step)
    requires
        !step_before(b, a),
        !step_before(c, b),
    ensures
        !step_before(c, a),
{
    match (a, b, c) {
        (Step::Name(x), Step::Name(y), Step::Name(z)) => {
            lemma_bytes_chained(x, y, z);
        },
        (_, _, _) => {},
    }
}

proof fn lemma_steps_one_way(a: Seq<Step>, b: Seq<Step>)
    requires
        steps_before(a, b),
    ensures
        !steps_before(b, a),
    decreases a.len(),
{
    if a.len() > 0 && b.len() > 0 {
        if a[0] == b[0] {
            lemma_steps_one_way(a.skip(1), b.skip(1));
        } else {
            lemma_step_total(a[0], b[0]);
        }
    }
}

proof fn lemma_steps_chained(a: Seq<Step>, b: Seq<Step>, c: Seq<Step>)
    requires
        !steps_before(b, a),
        !steps_before(c, b),
    ensures
        !steps_before(c, a),
    decreases a.len(),
{
    if a.len() > 0 && b.len() > 0 && c.len() > 0 {
        lemma_step_total(a[0], b[0]);
        lemma_step_total(b[0], c[0]);
        lemma_step_total(a[0], c[0]);
        if a[0] == b[0] && b[0] == c[0] {
            lemma_steps_chained(a.skip(1), b.skip(1), c.skip(1));
        } else if a[0] != b[0] && b[0] != c[0] {
            lemma_step_chained(a[0], b[0], c[0]);
        }
    }
}

pub proof fn lemma_before_one_way(a: Seq<u8>, b: Seq<u8>)
    requires
        before(a, b),
    ensures
        !before(b, a),
{
    lemma_steps_one_way(steps(a), steps(b));
}

pub proof fn lemma_before_chained(a: Seq<u8>, b: Seq<u8>, c: Seq<u8>)
    requires
        !before(b, a),
        !before(c, b),
    ensures
        !before(c, a),
{
    lemma_steps_chained(steps(a), steps(b), steps(c));
}

/// A path of a Unix file system.
#[derive(Debug)]
pub struct FsPath {
    raw: Vec<u8>,
}

impl View for FsPath {
    type V = Seq<u8>;

    closed spec fn view(&self) -> Seq<u8> {
        self.raw@
    }
}

/// One step of a path, in memory.
pub enum Component {
    Root,
    Here,
    Up,
    Name(Vec<u8>),
}

impl View for Component {
    type V = Step;

    open spec fn view(&self) -> Step {
        match self {
            Component::Root => Step::Root,
            Component::Here => Step::Here,
            Component::Up => Step::Up,
            Component::Name(n) => Step::Name(n@),
        }
    }
}

/// Whether `a` comes before `b` in dictionary order.
pub fn bytes_less(a: &[u8], b: &[u8]) -> (r: bool)
    ensures
        r == bytes_before(a@, b@),
{
    let mut i: usize = 0;
    assert(a@.skip(0) == a@ && b@.skip(0) == b@);
    while i < a.len() && i < b.len() && a[i] == b[i]
        invariant
            i <= a@.len(),
            i <= b@.len(),
            bytes_before(a@, b@) == bytes_before(a@.skip(i as int), b@.skip(i as int)),
        decreases a.len() - i,
    {
        assert(a@.skip(i as int).skip(1) == a@.skip(i + 1));
        assert(b@.skip(i as int).skip(1) == b@.skip(i + 1));
        i += 1;
    }
    if i == b.len() {
        false
    } else if i == a.len() {
        true
    } else {
        a[i] < b[i]
    }
}

impl Component {
    fn rank(&self) -> (r: u8)
        ensures
            r == step_rank(self@),
    {
        match self {
            Component::Root => 0,
            Component::Here => 1,
            Component::Up => 2,
            Component::Name(_) => 3,
        }
    }

    fn is_same(&self, other: &Component) -> (r: bool)
        ensures
            r == (self@ == other@),
    {
        match (self, other) {
            (Component::Name(a), Component::Name(b)) => crate::crypto::same_bytes(
                a.as_slice(),
                b.as_slice(),
            ),
            (_, _) => self.rank() == other.rank(),
        }
    }

    fn is_before(&self, other: &Component) -> (r: bool)
        ensures
            r == step_before(self@, other@),
    {
        match (self, other) {
            (Component::Name(a), Component::Name(b)) => bytes_less(a.as_slice(), b.as_slice()),
            (_, _) => self.rank() < other.rank(),
        }
    }
}

/// The step that one piece between slashes stands for.
fn read_piece(piece: &[u8], front: bool) -> (r: Option<Component>)
    ensures
        match r {
            Some(c) => piece_step(piece@, front) == Some(c@),
            None => piece_step(piece@, front) is None,
        },
{
    if piece.len() == 0 {
        None
    } else if piece.len() == 1 && piece[0] == DOT {
        assert(piece@ =~= seq![DOT]);
        if front {
            Some(Component::Here)
        } else {
            None
        }
    } else if piece.len() == 2 && piece[0] == DOT && piece[1] == DOT {
        assert(piece@ =~= seq![DOT, DOT]);
        Some(Component::Up)
    } else {
        Some(Component::Name(vstd::slice::slice_to_vec(piece)))
    }
}

impl FsPath {
    pub fn new(raw: Vec<u8>) -> (r: Self)
        ensures
            r@ == raw@,
    {
        FsPath { raw }
    }

    /// The path that a text writes.
    pub fn of(text: &str) -> (r: Self)
        ensures
            r@ == vstd::utf8::encode_utf8(text@),
    {
        FsPath { raw: vstd::slice::slice_to_vec(text.as_bytes()) }
    }

    pub fn as_bytes(&self) -> (r: &[u8])
        ensures
            r@ == self@,
    {
        self.raw.as_slice()
    }

    /// The steps of the path.
    pub fn components(&self) -> (r: Vec<Component>)
        ensures
            order::views(r@) == steps(self@),
    {
        let s = self.raw.as_slice();
        let parts = split_bytes(s, SLASH);
        let mut r: Vec<Component> = Vec::new();
        let ghost all = text::pieces(s@, SLASH);
        let ghost root = if absolute(s@) {
            seq![Step::Root]
        } else {
            Seq::empty()
        };
        if s.len() > 0 && s[0] == SLASH {
            r.push(Component::Root);
        }
        assert(order::views(r@) =~= root);
        let mut i: usize = 0;
        assert(all.take(0) == Seq::<Seq<u8>>::empty());
        assert(root + piece_steps(all.take(0), true) == root);
        while i < parts.len()
            invariant
                all == text::contents(parts@),
                i <= parts@.len(),
                order::views(r@) == root + piece_steps(all.take(i as int), true),
            decreases parts.len() - i,
        {
            let ghost done = r@;
            assert(all[i as int] == parts@[i as int]@);
            assert(all.take(i + 1).drop_last() == all.take(i as int));
            if let Some(c) = read_piece(parts[i], i == 0) {
                r.push(c);
                assert(order::views(r@) == order::views(done).push(c@));
                assert(root + piece_steps(all.take(i as int), true).push(c@) == (root
                    + piece_steps(all.take(i as int), true)).push(c@));
            }
            i += 1;
        }
        assert(all.take(all.len() as int) == all);
        assert(Seq::<Step>::empty() + piece_steps(all, true) == piece_steps(all, true));
        r
    }

    pub fn is_absolute(&self) -> (r: bool)
        ensures
            r == absolute(self@),
    {
        self.raw.len() > 0 && self.raw[0] == SLASH
    }

    /// Whether two paths are the same.
    pub fn is_same(&self, other: &FsPath) -> (r: bool)
        ensures
            r == same(self@, other@),
    {
        let a = self.components();
        let b = other.components();
        let ghost x = order::views(a@);
        assert(x.take(x.len() as int) == x);
        if a.len() != b.len() {
            assert(x.len() != order::views(b@).len());
            return false;
        }
        has_steps(&a, &b)
    }

    /// Whether this path is `base` or lies below it.
    pub fn starts_with(&self, base: &FsPath) -> (r: bool)
        ensures
            r == below(self@, base@),
    {
        has_steps(&self.components(), &base.components())
    }

    /// Whether this path sorts before `other`.
    pub fn is_before(&self, other: &FsPath) -> (r: bool)
        ensures
            r == before(self@, other@),
    {
        let a = self.components();
        let b = other.components();
        let ghost x = order::views(a@);
        let ghost y = order::views(b@);
        let mut i: usize = 0;
        assert(x.skip(0) == x && y.skip(0) == y);
        while i < a.len() && i < b.len() && a[i].is_same(&b[i])
            invariant
                x == order::views(a@),
                y == order::views(b@),
                i <= a@.len(),
                i <= b@.len(),
                steps_before(x, y) == steps_before(x.skip(i as int), y.skip(i as int)),
            decreases a.len() - i,
        {
            assert(x.skip(i as int).skip(1) == x.skip(i + 1));
            assert(y.skip(i as int).skip(1) == y.skip(i + 1));
            i += 1;
        }
        if i == b.len() {
            false
        } else if i == a.len() {
            true
        } else {
            a[i].is_before(&b[i])
        }
    }
}

impl Clone for FsPath {
    fn clone(&self) -> (r: Self)
        ensures
            r@ == self@,
    {
        FsPath { raw: self.raw.clone() }
    }
}

/// Whether `a` begins with the steps of `b`.
fn has_steps(a: &Vec<Component>, b: &Vec<Component>) -> (r: bool)
    ensures
        r == text::begins_with(order::views(a@), order::views(b@)),
{
    let ghost x = order::views(a@);
    let ghost y = order::views(b@);
    if b.len() > a.len() {
        return false;
    }
    let mut i: usize = 0;
    while i < b.len()
        invariant
            x == order::views(a@),
            y == order::views(b@),
            b@.len() <= a@.len(),
            i <= b@.len(),
            forall|j: int| 0 <= j < i ==> x[j] == y[j],
        decreases b.len() - i,
    {
        if !a[i].is_same(&b[i]) {
            assert(x.take(y.len() as int)[i as int] != y[i as int]);
            return false;
        }
        i += 1;
    }
    assert(x.take(y.len() as int) =~= y);
    true
}

/// The pieces of some bytes between occurrences of `sep`.
pub fn split_bytes<'a>(s: &'a [u8], sep: u8) -> (r: Vec<&'a [u8]>)
    ensures
        text::contents(r@) == text::pieces(s@, sep),
{
    let mut r: Vec<&'a [u8]> = Vec::new();
    let mut tail: &'a [u8] = s;
    let mut n: usize = find_byte(tail, sep);
    assert(text::contents(r@) + text::pieces(tail@, sep) == text::pieces(s@, sep));
    while n < tail.len()
        invariant
            n == text::first_index(tail@, sep),
            n <= tail@.len(),
            text::contents(r@) + text::pieces(tail@, sep) == text::pieces(s@, sep),
        decreases tail@.len(),
    {
        let ghost done = r@;
        let ghost rest = tail@;
        let piece = &tail[0..n];
        r.push(piece);
        tail = &tail[n + 1..tail.len()];
        n = find_byte(tail, sep);
        proof {
            let k = text::first_index(rest, sep);
            assert(piece@ == rest.take(k));
            assert(text::contents(r@) == text::contents(done).push(piece@));
            assert(tail@ == rest.skip(k + 1));
            assert(text::contents(done) + text::pieces(rest, sep) == text::contents(r@)
                + text::pieces(tail@, sep));
        }
    }
    let ghost done = r@;
    r.push(tail);
    proof {
        assert(text::contents(r@) == text::contents(done).push(tail@));
        assert(text::pieces(tail@, sep) == seq![tail@]);
        assert(text::contents(done) + text::pieces(tail@, sep) == text::contents(r@));
    }
    r
}

/// The index of the first `b`, or the length.
pub fn find_byte(s: &[u8], b: u8) -> (r: usize)
    ensures
        r == text::first_index(s@, b),
        r <= s@.len(),
{
    let mut i: usize = 0;
    while i < s.len() && s[i] != b
        invariant
            i <= s@.len(),
            forall|j: int| 0 <= j < i ==> s@[j] != b,
        decreases s.len() - i,
    {
        i += 1;
    }
    proof {
        text::lemma_first_index_unique(s@, b, i as int);
    }
    i
}

/// `b` seen from `a`: `b` itself if it is absolute.
pub open spec fn joined(a: Seq<u8>, b: Seq<u8>) -> Seq<u8> {
    if absolute(b) {
        b
    } else if a.len() == 0 || a.last() == SLASH {
        a + b
    } else {
        a.push(SLASH) + b
    }
}

/// A name that stands for itself in a path.
pub open spec fn plain_name(name: Seq<u8>) -> bool {
    &&& name.len() > 0
    &&& name != seq![DOT]
    &&& name != seq![DOT, DOT]
    &&& !name.contains(SLASH)
}

/// A step that may stand anywhere but in front.
pub open spec fn inner_step(s: Step) -> bool {
    match s {
        Step::Up => true,
        Step::Name(n) => plain_name(n),
        _ => false,
    }
}

/// How an inner step is written.
pub open spec fn step_bytes(s: Step) -> Seq<u8> {
    match s {
        Step::Name(n) => n,
        _ => seq![DOT, DOT],
    }
}

/// How a list of inner steps is written.
pub open spec fn written(s: Seq<Step>) -> Seq<u8>
    decreases s.len(),
{
    if s.len() == 0 {
        Seq::empty()
    } else if s.len() == 1 {
        step_bytes(s[0])
    } else {
        written(s.drop_last()).push(SLASH) + step_bytes(s.last())
    }
}

/// No piece holds the separator.
proof fn lemma_pieces_clean(s: Seq<u8>, sep: u8)
    ensures
        text::pieces(s, sep).len() > 0,
        forall|i: int| 0 <= i < text::pieces(s, sep).len() ==> !(#[trigger] text::pieces(s, sep)[i]).contains(sep),
    decreases s.len(),
{
    text::lemma_first_index(s, sep);
    let n = text::first_index(s, sep);
    let p = text::pieces(s, sep);
    if n < s.len() {
        let rest = text::pieces(s.skip(n + 1), sep);
        lemma_pieces_clean(s.skip(n + 1), sep);
        assert forall|i: int| 0 <= i < p.len() implies !(#[trigger] p[i]).contains(sep) by {
            if i > 0 {
                assert(p[i] == rest[i - 1]);
            }
        }
    }
}

/// One more piece behind a separator.
pub proof fn lemma_pieces_push<T>(a: Seq<T>, b: Seq<T>, sep: T)
    requires
        !b.contains(sep),
    ensures
        text::pieces(a.push(sep) + b, sep) == text::pieces(a, sep).push(b),
    decreases a.len(),
{
    let all = a.push(sep) + b;
    text::lemma_first_index(a, sep);
    let n = text::first_index(a, sep);
    text::lemma_first_index_unique(all, sep, n);
    assert(all.take(n) == a.take(n));
    if n < a.len() {
        lemma_pieces_push(a.skip(n + 1), b, sep);
        assert(all.skip(n + 1) == a.skip(n + 1).push(sep) + b);
        assert(text::pieces(all, sep) =~= text::pieces(a, sep).push(b));
    } else {
        assert(all.skip(n + 1) == b);
        text::lemma_first_index_unique(b, sep, b.len() as int);
        assert(a.take(n) == a);
        assert(text::pieces(b, sep) == seq![b]);
        assert(text::pieces(a, sep) == seq![a]);
        assert(text::pieces(all, sep) =~= seq![a] + seq![b]);
    }
}

/// Behind the first step of a list of pieces come inner steps only, and `.` is
/// read only off the front piece.
proof fn lemma_piece_steps_inner(pieces: Seq<Seq<u8>>)
    requires
        forall|i: int| 0 <= i < pieces.len() ==> !(#[trigger] pieces[i]).contains(SLASH),
    ensures
        forall|i: int|
            0 < i < piece_steps(pieces, true).len() ==> inner_step(
                #[trigger] piece_steps(pieces, true)[i],
            ),
        pieces.len() > 0 && pieces[0].len() == 0 ==> forall|i: int|
            0 <= i < piece_steps(pieces, true).len() ==> inner_step(
                #[trigger] piece_steps(pieces, true)[i],
            ),
        piece_steps(pieces, true).len() <= pieces.len(),
    decreases pieces.len(),
{
    if pieces.len() > 0 {
        let init = pieces.drop_last();
        lemma_piece_steps_inner(init);
        let last = pieces.last();
        assert(!pieces[pieces.len() - 1].contains(SLASH));
        let before = piece_steps(init, true);
        let all = piece_steps(pieces, true);
        if init.len() > 0 {
            assert(init[0] == pieces[0]);
        }
        assert forall|i: int| 0 < i < all.len() implies inner_step(#[trigger] all[i]) by {
            if i < before.len() {
                assert(all[i] == before[i]);
            } else {
                assert(pieces.len() > 1);
            }
        }
        if pieces[0].len() == 0 {
            assert forall|i: int| 0 <= i < all.len() implies inner_step(#[trigger] all[i]) by {
                if i < before.len() {
                    assert(all[i] == before[i]);
                }
            }
        }
    }
}

/// Behind its first step a path has inner steps only.
proof fn lemma_steps_inner(raw: Seq<u8>)
    ensures
        forall|i: int| 0 < i < steps(raw).len() ==> inner_step(#[trigger] steps(raw)[i]),
{
    let p = text::pieces(raw, SLASH);
    lemma_pieces_clean(raw, SLASH);
    lemma_piece_steps_inner(p);
    if absolute(raw) {
        text::lemma_first_index_unique(raw, SLASH, 0);
        assert(p[0] == raw.take(0));
        let names = piece_steps(p, true);
        assert forall|i: int| 0 < i < steps(raw).len() implies inner_step(
            #[trigger] steps(raw)[i],
        ) by {
            assert(steps(raw)[i] == names[i - 1]);
        }
    }
}

/// Inner steps that are written down are read back.
proof fn lemma_written(s: Seq<Step>)
    requires
        forall|i: int| 0 <= i < s.len() ==> inner_step(#[trigger] s[i]),
    ensures
        steps(written(s)) == s,
        s.len() > 0 ==> written(s).len() > 0 && written(s)[0] != SLASH,
        s.len() > 0 ==> piece_steps(text::pieces(written(s), SLASH), true) == s,
    decreases s.len(),
{
    let w = written(s);
    let none = Seq::<Seq<u8>>::empty();
    if s.len() == 0 {
        text::lemma_first_index_unique(w, SLASH, 0);
        assert(text::pieces(w, SLASH) == seq![w]);
        assert(seq![w].drop_last() == none);
        assert(piece_steps(none, true) == Seq::<Step>::empty());
        assert(steps(w) =~= s);
    } else {
        let last = s[s.len() - 1];
        assert(inner_step(last));
        let b = step_bytes(last);
        assert(!b.contains(SLASH)) by {
            if let Step::Up = last {
                assert(b[0] != SLASH && b[1] != SLASH);
            }
        }
        assert(b[0] != SLASH);
        assert(piece_step(b, false) == Some(last));
        assert(piece_step(b, true) == Some(last)) by {
            if let Step::Up = last {
                assert(b.len() == 2);
                assert(seq![DOT].len() == 1);
            }
        }
        if s.len() == 1 {
            text::lemma_first_index_unique(b, SLASH, b.len() as int);
            assert(text::pieces(b, SLASH) == seq![b]);
            assert(seq![b].drop_last() == none);
            assert(piece_steps(none, true) == Seq::<Step>::empty());
            assert(piece_steps(seq![b], true) =~= s);
        } else {
            let init = s.drop_last();
            lemma_written(init);
            let a = written(init);
            lemma_pieces_push(a, b, SLASH);
            let p = text::pieces(a, SLASH);
            lemma_pieces_clean(a, SLASH);
            assert(p.push(b).drop_last() == p);
            assert(piece_steps(p.push(b), true) == init.push(last));
            assert(init.push(last) =~= s);
            assert(w[0] == a[0]);
        }
    }
}

/// A path as text, for people to read.
pub open spec fn shown(raw: Seq<u8>) -> Seq<char> {
    if vstd::utf8::valid_utf8(raw) {
        vstd::utf8::decode_utf8(raw)
    } else {
        lossy_text(raw)
    }
}

/// `std::string::String::from_utf8_lossy` of bytes that are not UTF-8.
pub uninterp spec fn lossy_text(bytes: Seq<u8>) -> Seq<char>;

/// `String::from_utf8_lossy` reads bytes as UTF-8 and puts replacement
/// characters where they are not; bytes that are UTF-8 give the text they
/// encode.
#[verifier::external_body]
fn read_lossy(bytes: &[u8]) -> (r: String)
    ensures
        !vstd::utf8::valid_utf8(bytes@) ==> r@ == lossy_text(bytes@),
        vstd::utf8::valid_utf8(bytes@) ==> r@ == vstd::utf8::decode_utf8(bytes@),
{
    String::from_utf8_lossy(bytes).into_owned()
}

impl FsPath {
    /// `other` seen from this path.
    pub fn join(&self, other: &FsPath) -> (r: FsPath)
        ensures
            r@ == joined(self@, other@),
    {
        if other.is_absolute() {
            return other.clone();
        }
        let mut raw = self.raw.clone();
        if raw.len() > 0 && raw[raw.len() - 1] != SLASH {
            raw.push(SLASH);
        }
        raw.extend_from_slice(other.raw.as_slice());
        FsPath { raw }
    }

    /// The path as text, for people to read.
    pub fn display(&self) -> (r: String)
        ensures
            r@ == shown(self@),
    {
        read_lossy(self.raw.as_slice())
    }

    /// This path seen from `base`, if it is `base` or lies below it.
    pub fn relative_to(&self, base: &FsPath) -> (r: Option<FsPath>)
        ensures
            match r {
                Some(p) => below(self@, base@) && steps(p@) == steps(self@).skip(
                    steps(base@).len() as int,
                ),
                None => !below(self@, base@),
            },
    {
        let a = self.components();
        let b = base.components();
        let ghost all = steps(self@);
        if !has_steps(&a, &b) {
            return None;
        }
        if b.len() == 0 {
            assert(steps(base@).len() == 0);
            assert(all.skip(0) == all);
            return Some(self.clone());
        }
        proof {
            lemma_steps_inner(self@);
        }
        let ghost rest = all.skip(b@.len() as int);
        let mut raw: Vec<u8> = Vec::new();
        let mut i: usize = b.len();
        assert(steps(base@).len() == b@.len());
        assert(rest.take(0) == Seq::<Step>::empty());
        while i < a.len()
            invariant
                0 < b@.len() <= i <= a@.len(),
                all == order::views(a@),
                forall|k: int| 0 < k < all.len() ==> inner_step(#[trigger] all[k]),
                rest == all.skip(b@.len() as int),
                raw@ == written(rest.take(i - b@.len())),
            decreases a.len() - i,
        {
            let ghost t = rest.take(i + 1 - b@.len());
            let ghost done = raw@;
            assert(t.drop_last() == rest.take(i - b@.len()));
            assert(t.last() == all[i as int]);
            assert(inner_step(all[i as int]));
            if i > b.len() {
                raw.push(SLASH);
            }
            match &a[i] {
                Component::Name(n) => {
                    raw.extend_from_slice(n.as_slice());
                },
                _ => {
                    raw.push(DOT);
                    raw.push(DOT);
                },
            }
            assert(raw@ =~= written(t));
            i += 1;
        }
        assert(rest.take(rest.len() as int) == rest);
        proof {
            assert forall|k: int| 0 <= k < rest.len() implies inner_step(#[trigger] rest[k]) by {
                assert(rest[k] == all[k + b@.len()]);
            }
            lemma_written(rest);
        }
        Some(FsPath { raw })
    }
}

/// The pieces on both sides of a separator.
proof fn lemma_pieces_concat<T>(a: Seq<T>, b: Seq<T>, sep: T)
    ensures
        text::pieces(a.push(sep) + b, sep) == text::pieces(a, sep) + text::pieces(b, sep),
    decreases a.len(),
{
    let all = a.push(sep) + b;
    text::lemma_first_index(a, sep);
    let n = text::first_index(a, sep);
    text::lemma_first_index_unique(all, sep, n);
    assert(all.take(n) == a.take(n));
    if n < a.len() {
        lemma_pieces_concat(a.skip(n + 1), b, sep);
        assert(all.skip(n + 1) == a.skip(n + 1).push(sep) + b);
    } else {
        assert(all.skip(n + 1) == b);
        assert(a.take(n) == a);
    }
    assert(text::pieces(all, sep) =~= text::pieces(a, sep) + text::pieces(b, sep));
}

/// Steps behind others: a `.` does not count there.
proof fn lemma_piece_steps_concat(a: Seq<Seq<u8>>, b: Seq<Seq<u8>>)
    requires
        a.len() > 0,
    ensures
        piece_steps(a + b, true) == piece_steps(a, true) + piece_steps(b, false),
    decreases b.len(),
{
    let all = a + b;
    if b.len() == 0 {
        assert(all =~= a);
        assert(piece_steps(all, true) =~= piece_steps(a, true) + piece_steps(b, false));
    } else {
        lemma_piece_steps_concat(a, b.drop_last());
        assert(all.drop_last() =~= a + b.drop_last());
        assert(all.last() == b.last());
        assert(piece_steps(all, true) =~= piece_steps(a, true) + piece_steps(b, false));
    }
}

/// The front piece is the first step, unless it is empty; only a `.` depends on
/// being in front.
proof fn lemma_front_piece(pieces: Seq<Seq<u8>>)
    requires
        pieces.len() > 0,
    ensures
        pieces[0].len() > 0 ==> piece_steps(pieces, true).len() > 0 && piece_step(pieces[0], true)
            == Some(piece_steps(pieces, true)[0]),
        pieces[0] != seq![DOT] ==> piece_steps(pieces, true) == piece_steps(pieces, false),
    decreases pieces.len(),
{
    let init = pieces.drop_last();
    if pieces.len() == 1 {
        assert(init =~= Seq::<Seq<u8>>::empty());
        assert(piece_steps(init, true) == Seq::<Step>::empty());
        assert(piece_steps(init, false) == Seq::<Step>::empty());
        assert(pieces.last() == pieces[0]);
    } else {
        lemma_front_piece(init);
        assert(init[0] == pieces[0]);
    }
}

/// Only the empty path has no steps, and only an absolute one starts at the
/// root.
proof fn lemma_first_step(raw: Seq<u8>)
    ensures
        raw.len() == 0 <==> steps(raw).len() == 0,
        absolute(raw) <==> steps(raw).len() > 0 && steps(raw)[0] == Step::Root,
{
    let p = text::pieces(raw, SLASH);
    text::lemma_first_index(raw, SLASH);
    lemma_pieces_clean(raw, SLASH);
    lemma_front_piece(p);
    if raw.len() == 0 {
        assert(p == seq![raw]);
        assert(seq![raw].drop_last() =~= Seq::<Seq<u8>>::empty());
        assert(piece_steps(seq![raw].drop_last(), true) == Seq::<Step>::empty());
    } else if !absolute(raw) {
        assert(text::first_index(raw, SLASH) > 0);
        assert(p[0].len() > 0);
    }
}

/// Joining a relative path that does not begin with `.` puts its steps behind
/// those of the other path.
pub proof fn law_join_adds_steps(a: Seq<u8>, b: Seq<u8>)
    requires
        !absolute(b),
        steps(b).len() > 0 ==> steps(b)[0] != Step::Here,
    ensures
        steps(joined(a, b)) == steps(a) + steps(b),
{
    let j = joined(a, b);
    let pb = text::pieces(b, SLASH);
    lemma_pieces_clean(b, SLASH);
    lemma_front_piece(pb);
    if pb[0] == seq![DOT] {
        assert(pb[0].len() > 0);
        assert(piece_step(pb[0], true) == Some(Step::Here));
    }
    assert(steps(b) == piece_steps(pb, false));
    lemma_first_step(a);
    if a.len() == 0 {
        assert(j =~= b);
        assert(steps(a) + steps(b) =~= steps(b));
    } else {
        assert(j[0] == a[0]);
        let pa = text::pieces(a, SLASH);
        lemma_pieces_clean(a, SLASH);
        if a.last() == SLASH {
            let front = a.drop_last();
            let pf = text::pieces(front, SLASH);
            let empty = Seq::<u8>::empty();
            lemma_pieces_clean(front, SLASH);
            lemma_pieces_push(front, empty, SLASH);
            assert(front.push(SLASH) + empty =~= a);
            assert(pf.push(empty).drop_last() =~= pf);
            assert(piece_steps(pa, true) == piece_steps(pf, true));
            lemma_pieces_concat(front, b, SLASH);
            assert(front.push(SLASH) + b =~= j);
            lemma_piece_steps_concat(pf, pb);
        } else {
            lemma_pieces_concat(a, b, SLASH);
            lemma_piece_steps_concat(pa, pb);
        }
        assert(steps(j) =~= steps(a) + steps(b));
    }
}

/// Joining a plain name adds one step.
pub proof fn lemma_joined_steps(a: Seq<u8>, name: Seq<u8>)
    requires
        plain_name(name),
    ensures
        steps(joined(a, name)) == steps(a).push(Step::Name(name)),
{
    let step = seq![Step::Name(name)];
    assert(inner_step(step[0]));
    assert(written(step) == name);
    lemma_written(step);
    lemma_first_step(name);
    law_join_adds_steps(a, name);
    assert(steps(a) + step =~= steps(a).push(Step::Name(name)));
}

/// A path seen from a directory above it, and joined to that directory again, is
/// the same path.
pub proof fn law_relative_path_rejoins(p: Seq<u8>, dir: Seq<u8>, r: Seq<u8>)
    requires
        below(p, dir),
        steps(r) == steps(p).skip(steps(dir).len() as int),
    ensures
        same(joined(dir, r), p),
{
    let n = steps(dir).len() as int;
    lemma_first_step(dir);
    lemma_first_step(r);
    lemma_steps_inner(p);
    assert(steps(p) =~= steps(p).take(n) + steps(p).skip(n));
    if n == 0 {
        assert(joined(dir, r) =~= r);
    } else {
        if steps(r).len() > 0 {
            assert(steps(r)[0] == steps(p)[n]);
            assert(inner_step(steps(p)[n]));
        }
        law_join_adds_steps(dir, r);
    }
}

/// The steps that a piece without slashes adds behind a slash: none if it is empty
/// or `.`, one upwards if it is `..`, and one to its name otherwise.
pub open spec fn added_steps(piece: Seq<u8>) -> Seq<Step> {
    if piece.len() == 0 || piece == seq![0x2eu8] {
        Seq::empty()
    } else if piece == seq![0x2eu8, 0x2eu8] {
        seq![Step::Up]
    } else {
        seq![Step::Name(piece)]
    }
}

/// A path is read piece by piece. A first piece counts as it does later, but for a
/// `.`, which counts there; a slash in front is the root; and each piece behind a
/// slash adds its step, so that slashes in a row and at the end add none.
pub proof fn law_paths_are_read_by_pieces(p: Seq<u8>, piece: Seq<u8>)
    requires
        !piece.contains(0x2fu8),
    ensures
        piece != seq![0x2eu8] ==> steps(piece) == added_steps(piece),
        steps(seq![0x2eu8]) == seq![Step::Here],
        steps(seq![0x2fu8] + piece) == seq![Step::Root] + added_steps(piece),
        p.len() > 0 ==> steps(p + seq![0x2fu8] + piece) == steps(p) + added_steps(piece),
{
    let none = Seq::<Seq<u8>>::empty();
    text::lemma_first_index_unique(piece, SLASH, piece.len() as int);
    assert(text::pieces(piece, SLASH) == seq![piece]);
    assert(seq![piece].drop_last() =~= none);
    assert(piece_steps(none, true) =~= Seq::<Step>::empty());
    assert(piece.len() > 0 ==> piece[0] != SLASH);
    assert(steps(piece) =~= piece_steps(seq![piece], true));
    if piece != seq![0x2eu8] {
        assert(steps(piece) =~= added_steps(piece));
    }
    let dot = seq![0x2eu8];
    assert(!dot.contains(SLASH)) by {
        assert forall|i: int| 0 <= i < dot.len() implies dot[i] != SLASH by {}
    }
    text::lemma_first_index_unique(dot, SLASH, 1);
    assert(text::pieces(dot, SLASH) == seq![dot]);
    assert(seq![dot].drop_last() =~= none);
    assert(steps(dot) =~= seq![Step::Here]);
    let empty = Seq::<u8>::empty();
    let root = seq![0x2fu8] + piece;
    lemma_pieces_push(empty, piece, SLASH);
    assert(empty.push(SLASH) + piece =~= root);
    text::lemma_first_index_unique(empty, SLASH, 0);
    assert(text::pieces(empty, SLASH) == seq![empty]);
    assert(seq![empty].drop_last() =~= none);
    assert(seq![empty].push(piece).drop_last() =~= seq![empty]);
    assert(piece_steps(seq![empty], true) =~= Seq::<Step>::empty());
    assert(steps(root) =~= seq![Step::Root] + added_steps(piece));
    if p.len() > 0 {
        let all = p + seq![0x2fu8] + piece;
        lemma_pieces_push(p, piece, SLASH);
        lemma_pieces_clean(p, SLASH);
        let pp = text::pieces(p, SLASH);
        assert(p.push(SLASH) + piece =~= all);
        assert(pp.push(piece).drop_last() =~= pp);
        assert(all[0] == p[0]);
        assert(piece_steps(pp.push(piece), true) =~= piece_steps(pp, true) + added_steps(piece));
        assert(steps(all) =~= steps(p) + added_steps(piece));
    }
}

/// Two paths are the same exactly if their steps are; one is or lies below another
/// exactly if steps behind those of the other make it up; and only a slash in front
/// makes a path absolute.
pub proof fn law_paths_are_compared_by_steps(a: Seq<u8>, b: Seq<u8>)
    ensures
        same(a, b) <==> steps(a) == steps(b),
        below(a, b) <==> exists|rest: Seq<Step>| steps(a) == steps(b) + rest,
        absolute(a) <==> a.len() > 0 && a[0] == 0x2f,
        absolute(a) <==> steps(a).len() > 0 && steps(a)[0] == Step::Root,
{
    text::law_beginning(steps(a), steps(b));
    lemma_first_step(a);
}

/// Joining puts one slash between two paths if none stands there, and nothing else;
/// an absolute path is joined to nothing.
pub proof fn law_joining_puts_one_slash(a: Seq<u8>, b: Seq<u8>)
    ensures
        b.len() > 0 && b[0] == 0x2f ==> joined(a, b) == b,
        !(b.len() > 0 && b[0] == 0x2f) ==> joined(a, b) == (if a.len() > 0 && a[a.len() - 1] != 0x2f {
            a + seq![0x2fu8] + b
        } else {
            a + b
        }),
{
    assert(a.push(SLASH) + b =~= a + seq![0x2fu8] + b);
}

/// Byte strings are in dictionary order: by the first byte in which they differ,
/// and a beginning comes before what it begins.
pub proof fn law_bytes_in_dictionary_order(common: Seq<u8>, a: Seq<u8>, b: Seq<u8>)
    requires
        a.len() > 0 && b.len() > 0 ==> a[0] != b[0],
    ensures
        bytes_before(common + a, common + b) <==> b.len() > 0 && (a.len() == 0 || a[0] < b[0]),
    decreases common.len(),
{
    if common.len() == 0 {
        assert(common + a =~= a);
        assert(common + b =~= b);
    } else {
        let rest = common.skip(1);
        law_bytes_in_dictionary_order(rest, a, b);
        assert((common + a).skip(1) =~= rest + a);
        assert((common + b).skip(1) =~= rest + b);
        assert((common + a)[0] == common[0]);
        assert((common + b)[0] == common[0]);
    }
}

/// Paths are in dictionary order of their steps: the root comes first, then `.`,
/// then `..`, then names in dictionary order of their bytes.
pub proof fn law_paths_in_dictionary_order(
    a: Seq<u8>,
    b: Seq<u8>,
    common: Seq<Step>,
    x: Seq<Step>,
    y: Seq<Step>,
)
    requires
        steps(a) == common + x,
        steps(b) == common + y,
        x.len() > 0 && y.len() > 0 ==> x[0] != y[0],
    ensures
        before(a, b) <==> y.len() > 0 && (x.len() == 0 || match (x[0], y[0]) {
            (Step::Name(m), Step::Name(n)) => bytes_before(m, n),
            (Step::Root, _) => true,
            (_, Step::Root) => false,
            (Step::Here, _) => true,
            (_, Step::Here) => false,
            (Step::Up, _) => true,
            (_, Step::Up) => false,
        }),
{
    lemma_steps_dictionary(common, x, y);
}

proof fn lemma_steps_dictionary(common: Seq<Step>, x: Seq<Step>, y: Seq<Step>)
    requires
        x.len() > 0 && y.len() > 0 ==> x[0] != y[0],
    ensures
        steps_before(common + x, common + y) <==> y.len() > 0 && (x.len() == 0 || step_before(
            x[0],
            y[0],
        )),
    decreases common.len(),
{
    if common.len() == 0 {
        assert(common + x =~= x);
        assert(common + y =~= y);
    } else {
        let rest = common.skip(1);
        lemma_steps_dictionary(rest, x, y);
        assert((common + x).skip(1) =~= rest + x);
        assert((common + y).skip(1) =~= rest + y);
        assert((common + x)[0] == common[0]);
        assert((common + y)[0] == common[0]);
    }
}

/// A path that is text is shown as that text.
pub proof fn law_text_paths_are_shown(t: Seq<char>)
    ensures
        shown(vstd::utf8::encode_utf8(t)) == t,
{
    vstd::utf8::encode_utf8_valid_utf8(t);
    vstd::utf8::encode_utf8_decode_utf8(t);
}

} // verus!
