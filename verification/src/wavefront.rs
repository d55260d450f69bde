//! Reading Wavefront OBJ files: vertex records, vertex normal records,
//! polygonal faces (split into triangles), and named groups.
//!
//! Vertex coordinates are kept as the number words of the file; faces refer
//! to vertices and normals by their position in the order they were read.

use vstd::prelude::*;

use crate::lex::{
    lemma_lines_len, lemma_split_on_join, lemma_split_on_without_sep, lines_of,
    is_float_literal, is_float_literal_chars, lines, parse_usize, parse_usize_chars, seqs_view,
    split_chars, split_on, trim, trim_chars, words, words_of,
};
use crate::text::{chars_of, string_from_chars};

verus! {

/// The group a face belongs to: the one before any `g` record, or a named one.
#[derive(Debug, Clone, PartialEq, Eq, Hash)]
pub enum ObjGroup {
    Default,
    Named(String),
}

impl View for ObjGroup {
    type V = Option<Seq<char>>;

    open spec fn view(&self) -> Option<Seq<char>> {
        match self {
            ObjGroup::Default => None,
            ObjGroup::Named(s) => Some(s@),
        }
    }
}

/// Whether two groups are the same group.
pub fn same_group(a: &ObjGroup, b: &ObjGroup) -> (r: bool)
    ensures
        r == (a@ == b@),
{
    match (a, b) {
        (ObjGroup::Default, ObjGroup::Default) => true,
        (ObjGroup::Named(x), ObjGroup::Named(y)) => x.eq(y),
        _ => false,
    }
}

/// The three number words of a vertex or normal record.
#[derive(Debug, Clone)]
pub struct NumberTriple {
    pub x: String,
    pub y: String,
    pub z: String,
}

impl View for NumberTriple {
    type V = (Seq<char>, Seq<char>, Seq<char>);

    open spec fn view(&self) -> (Seq<char>, Seq<char>, Seq<char>) {
        (self.x@, self.y@, self.z@)
    }
}

/// A triangle of a face: the positions of its three vertices among the
/// vertex records, and of its three normals among the normal records when
/// every corner names one.
#[derive(Debug, Clone, Copy, PartialEq, Eq)]
pub struct FaceTriangle {
    pub vertices: (usize, usize, usize),
    pub normals: Option<(usize, usize, usize)>,
}

/// A corner of a face as written: a vertex number and maybe a normal
/// number, both counted from 1.
pub type CornerRef = (usize, Option<usize>);

/// The corner that a face word such as `3`, `3/1` or `3/1/2` names: one or
/// two slash-separated parts give a vertex, three parts give a vertex and
/// (in the third part) a normal.
pub open spec fn corner_ref(w: Seq<char>) -> Option<CornerRef> {
    let parts = split_on(w, '/');
    if parts.len() == 1 || parts.len() == 2 {
        match parse_usize(parts[0]) {
            Some(v) => Some((v, None)),
            None => None,
        }
    } else if parts.len() == 3 {
        match (parse_usize(parts[0]), parse_usize(parts[2])) {
            (Some(v), Some(n)) => Some((v, Some(n))),
            _ => None,
        }
    } else {
        None
    }
}

/// The corners of a face, when every word names one.
pub open spec fn corner_refs(ws: Seq<Seq<char>>) -> Option<Seq<CornerRef>> {
    if forall|i: int| 0 <= i < ws.len() ==> (#[trigger] corner_ref(ws[i])) is Some {
        Some(Seq::new(ws.len(), |i: int| corner_ref(ws[i]).unwrap()))
    } else {
        None
    }
}

/// Whether every corner names a vertex, and a normal if any, that has been read.
pub open spec fn refs_in_range(rs: Seq<CornerRef>, nv: nat, nn: nat) -> bool {
    forall|i: int|
        0 <= i < rs.len() ==> 1 <= (#[trigger] rs[i]).0 <= nv && (rs[i].1 matches Some(n) ==> 1
            <= n <= nn)
}

/// The triangle with corners `a`, `b` and `c`, as positions counted from 0.
pub open spec fn triangle_of(a: CornerRef, b: CornerRef, c: CornerRef) -> FaceTriangle {
    FaceTriangle {
        vertices: ((a.0 - 1) as usize, (b.0 - 1) as usize, (c.0 - 1) as usize),
        normals: match (a.1, b.1, c.1) {
            (Some(x), Some(y), Some(z)) => Some(((x - 1) as usize, (y - 1) as usize, (z - 1) as usize)),
            _ => None,
        },
    }
}

/// A polygon split into a fan of triangles around its first corner.
pub open spec fn fan(rs: Seq<CornerRef>) -> Seq<FaceTriangle> {
    Seq::new((rs.len() - 2) as nat, |i: int| triangle_of(rs[0], rs[i + 1], rs[i + 2]))
}

fn corner_ref_of(w: &Vec<char>) -> (r: Option<CornerRef>)
    ensures
        r == corner_ref(w@),
{
    let parts = split_chars(w, '/');
    assert(parts@.len() == split_on(w@, '/').len());
    if parts.len() == 1 || parts.len() == 2 {
        assert(parts@[0]@ == seqs_view(parts@)[0]);
        match parse_usize_chars(&parts[0]) {
            Some(v) => Some((v, None)),
            None => None,
        }
    } else if parts.len() == 3 {
        assert(parts@[0]@ == seqs_view(parts@)[0]);
        assert(parts@[2]@ == seqs_view(parts@)[2]);
        let v = parse_usize_chars(&parts[0]);
        let n = parse_usize_chars(&parts[2]);
        match (v, n) {
            (Some(v), Some(n)) => Some((v, Some(n))),
            _ => None,
        }
    } else {
        None
    }
}

fn corner_refs_of(ws: &Vec<Vec<char>>) -> (r: Option<Vec<CornerRef>>)
    ensures
        r is Some <==> corner_refs(seqs_view(ws@)) is Some,
        r matches Some(v) ==> v@ == corner_refs(seqs_view(ws@)).unwrap(),
{
    let ghost sv = seqs_view(ws@);
    let mut out: Vec<CornerRef> = Vec::new();
    for i in 0..ws.len()
        invariant
            sv == seqs_view(ws@),
            out@.len() == i,
            forall|j: int| 0 <= j < i ==> (#[trigger] corner_ref(sv[j])) is Some,
            forall|j: int| 0 <= j < i ==> out@[j] == #[trigger] corner_ref(sv[j]).unwrap(),
    {
        assert(sv[i as int] == ws@[i as int]@);
        match corner_ref_of(&ws[i]) {
            Some(c) => out.push(c),
            None => {
                return None;
            },
        }
    }
    assert(out@ =~= corner_refs(sv).unwrap());
    Some(out)
}

/// Splits a polygon into a fan of triangles around its first corner.
fn fan_triangulate(rs: &Vec<CornerRef>) -> (ts: Vec<FaceTriangle>)
    requires
        rs@.len() >= 3,
        forall|i: int| 0 <= i < rs@.len() ==> 1 <= (#[trigger] rs@[i]).0 && (rs@[i].1 matches Some(
            n,
        ) ==> 1 <= n),
    ensures
        ts@ == fan(rs@),
{
    let mut ts: Vec<FaceTriangle> = Vec::new();
    let first = rs[0];
    for i in 2..rs.len()
        invariant
            rs@.len() >= 3,
            first == rs@[0],
            forall|k: int| 0 <= k < rs@.len() ==> 1 <= (#[trigger] rs@[k]).0 && (rs@[k].1 matches Some(
                n,
            ) ==> 1 <= n),
            ts@ == fan(rs@).take(i - 2),
    {
        let b = rs[i - 1];
        let c = rs[i];
        let normals = match (first.1, b.1, c.1) {
            (Some(x), Some(y), Some(z)) => Some((x - 1, y - 1, z - 1)),
            _ => None,
        };
        let t = FaceTriangle { vertices: (first.0 - 1, b.0 - 1, c.0 - 1), normals };
        assert(t == triangle_of(rs@[0], rs@[i - 1], rs@[i as int]));
        ts.push(t);
        assert(ts@ =~= fan(rs@).take(i - 1));
    }
    assert(fan(rs@).take(rs@.len() - 2) =~= fan(rs@));
    ts
}

/// What a parsed OBJ file holds: the number of lines it ignored, its
/// groups of triangles (each name once, in the order the names first
/// closed a group), and its vertex and normal records.
pub struct ObjModel {
    pub ignored: nat,
    pub groups: Seq<(Option<Seq<char>>, Seq<FaceTriangle>)>,
    pub vertices: Seq<(Seq<char>, Seq<char>, Seq<char>)>,
    pub normals: Seq<(Seq<char>, Seq<char>, Seq<char>)>,
}

/// The reader's state between lines: what has been read, the group being
/// filled and its triangles, and whether a face referred to a vertex or
/// normal that has not been read.
pub struct ParseState {
    pub model: ObjModel,
    pub current: Option<Seq<char>>,
    pub faces: Seq<FaceTriangle>,
    pub broken: bool,
}

/// Whether no two groups of `gs` share a name.
pub open spec fn keys_distinct(gs: Seq<(Option<Seq<char>>, Seq<FaceTriangle>)>) -> bool {
    forall|i: int, j: int| 0 <= i < gs.len() && 0 <= j < gs.len() && i != j ==> (#[trigger] gs[i]).0
        != (#[trigger] gs[j]).0
}

/// `gs` with the group named `k` holding `v`: its entry replaced when it has
/// one, a new entry at the end otherwise.
pub open spec fn put_group(
    gs: Seq<(Option<Seq<char>>, Seq<FaceTriangle>)>,
    k: Option<Seq<char>>,
    v: Seq<FaceTriangle>,
) -> Seq<(Option<Seq<char>>, Seq<FaceTriangle>)> {
    if exists|i: int| 0 <= i < gs.len() && (#[trigger] gs[i]).0 == k {
        Seq::new(gs.len(), |i: int| if gs[i].0 == k { (k, v) } else { gs[i] })
    } else {
        gs.push((k, v))
    }
}

/// The triangles of the group named `k` in `gs`, if it has one.
pub open spec fn lookup_group(gs: Seq<(Option<Seq<char>>, Seq<FaceTriangle>)>, k: Option<
    Seq<char>,
>) -> Option<Seq<FaceTriangle>> {
    if exists|i: int| 0 <= i < gs.len() && (#[trigger] gs[i]).0 == k {
        Some(gs[choose|i: int| 0 <= i < gs.len() && (#[trigger] gs[i]).0 == k].1)
    } else {
        None
    }
}

/// The position of the first space in `line`, if any.
pub open spec fn first_space(line: Seq<char>) -> Option<int> {
    if exists|k: int| 0 <= k < line.len() && line[k] == ' ' && forall|j: int| 0 <= j < k ==> #[trigger] line[j] != ' ' {
        Some(choose|k: int| 0 <= k < line.len() && line[k] == ' ' && forall|j: int| 0 <= j < k ==> #[trigger] line[j] != ' ')
    } else {
        None
    }
}

/// The three number words of a vertex or normal record, when it holds
/// exactly three words that all read as numbers.
pub open spec fn number_triple(t: Seq<char>) -> Option<(Seq<char>, Seq<char>, Seq<char>)> {
    let w = words(t);
    if w.len() == 3 && forall|i: int| 0 <= i < 3 ==> is_float_literal(#[trigger] w[i]) {
        Some((w[0], w[1], w[2]))
    } else {
        None
    }
}

pub open spec fn ignore_line(st: ParseState) -> ParseState {
    ParseState {
        model: ObjModel {
            ignored: st.model.ignored + 1,
            groups: st.model.groups,
            vertices: st.model.vertices,
            normals: st.model.normals,
        },
        current: st.current,
        faces: st.faces,
        broken: st.broken,
    }
}

pub open spec fn add_vertex(st: ParseState, p: (Seq<char>, Seq<char>, Seq<char>)) -> ParseState {
    ParseState {
        model: ObjModel {
            ignored: st.model.ignored,
            groups: st.model.groups,
            vertices: st.model.vertices.push(p),
            normals: st.model.normals,
        },
        current: st.current,
        faces: st.faces,
        broken: st.broken,
    }
}

pub open spec fn add_normal(st: ParseState, p: (Seq<char>, Seq<char>, Seq<char>)) -> ParseState {
    ParseState {
        model: ObjModel {
            ignored: st.model.ignored,
            groups: st.model.groups,
            vertices: st.model.vertices,
            normals: st.model.normals.push(p),
        },
        current: st.current,
        faces: st.faces,
        broken: st.broken,
    }
}

pub open spec fn add_faces(st: ParseState, ts: Seq<FaceTriangle>) -> ParseState {
    ParseState {
        model: st.model,
        current: st.current,
        faces: st.faces + ts,
        broken: st.broken,
    }
}

pub open spec fn break_state(st: ParseState) -> ParseState {
    ParseState { model: st.model, current: st.current, faces: st.faces, broken: true }
}

/// Closes the current group and starts the group named `name`.
pub open spec fn start_group(st: ParseState, name: Seq<char>) -> ParseState {
    ParseState {
        model: ObjModel {
            ignored: st.model.ignored,
            groups: put_group(st.model.groups, st.current, st.faces),
            vertices: st.model.vertices,
            normals: st.model.normals,
        },
        current: Some(name),
        faces: Seq::empty(),
        broken: st.broken,
    }
}

/// Reads one line: a record is its first word (before the first space)
/// followed by its arguments. `v` and `vn` records hold three numbers, `f`
/// records three or more corners, `g` records a group name; any other line,
/// and any record whose arguments do not read, is ignored.
pub open spec fn step(st: ParseState, line: Seq<char>) -> ParseState {
    match first_space(line) {
        None => ignore_line(st),
        Some(k) => {
            let head = line.take(k);
            let tail = trim(line.skip(k + 1));
            if head == seq!['v'] {
                match number_triple(tail) {
                    Some(p) => add_vertex(st, p),
                    None => ignore_line(st),
                }
            } else if head == seq!['f'] {
                match corner_refs(words(tail)) {
                    None => ignore_line(st),
                    Some(rs) => if !refs_in_range(
                        rs,
                        st.model.vertices.len(),
                        st.model.normals.len(),
                    ) {
                        break_state(st)
                    } else if rs.len() >= 3 {
                        add_faces(st, fan(rs))
                    } else {
                        ignore_line(st)
                    },
                }
            } else if head == seq!['g'] {
                start_group(st, tail)
            } else if head == seq!['v', 'n'] {
                match number_triple(tail) {
                    Some(p) => add_normal(st, p),
                    None => ignore_line(st),
                }
            } else {
                ignore_line(st)
            }
        },
    }
}

/// The state before any line: nothing read, the default group open.
pub open spec fn initial_state() -> ParseState {
    ParseState {
        model: ObjModel {
            ignored: 0,
            groups: Seq::empty(),
            vertices: Seq::empty(),
            normals: Seq::empty(),
        },
        current: None,
        faces: Seq::empty(),
        broken: false,
    }
}

/// The state after reading the lines `ls` in order.
pub open spec fn run(ls: Seq<Seq<char>>) -> ParseState
    decreases ls.len(),
{
    if ls.len() == 0 {
        initial_state()
    } else {
        step(run(ls.drop_last()), ls.last())
    }
}

/// Whether some face of `text` refers to a vertex or a normal that has not
/// been read before it.
pub open spec fn parse_fails(text: Seq<char>) -> bool {
    run(lines(text)).broken
}

/// The contents of the OBJ file `text`: every line read, then the last group closed.
pub open spec fn parse_spec(text: Seq<char>) -> ObjModel {
    let st = run(lines(text));
    ObjModel {
        ignored: st.model.ignored,
        groups: put_group(st.model.groups, st.current, st.faces),
        vertices: st.model.vertices,
        normals: st.model.normals,
    }
}

/// The views of the groups of a parsed file.
pub open spec fn groups_view(gs: Seq<(ObjGroup, Vec<FaceTriangle>)>) -> Seq<
    (Option<Seq<char>>, Seq<FaceTriangle>),
> {
    gs.map_values(|e: (ObjGroup, Vec<FaceTriangle>)| (e.0@, e.1@))
}

/// The views of vertex or normal records.
pub open spec fn triples_view(ts: Seq<NumberTriple>) -> Seq<(Seq<char>, Seq<char>, Seq<char>)> {
    ts.map_values(|t: NumberTriple| t@)
}

/// A parsed Wavefront OBJ file.
pub struct WavefrontObj {
    ignored: u32,
    groups: Vec<(ObjGroup, Vec<FaceTriangle>)>,
    vertices: Vec<NumberTriple>,
    normals: Vec<NumberTriple>,
}

impl View for WavefrontObj {
    type V = ObjModel;

    closed spec fn view(&self) -> ObjModel {
        ObjModel {
            ignored: self.ignored as nat,
            groups: groups_view(self.groups@),
            vertices: triples_view(self.vertices@),
            normals: triples_view(self.normals@),
        }
    }
}

/// The reader's state, for a reader whose faces so far all referred to
/// records that had been read.
pub open spec fn state_of(model: ObjModel, current: Option<Seq<char>>, faces: Seq<FaceTriangle>) -> ParseState {
    ParseState { model, current, faces, broken: false }
}

fn put_group_exec(
    gs: &mut Vec<(ObjGroup, Vec<FaceTriangle>)>,
    k: ObjGroup,
    v: Vec<FaceTriangle>,
)
    requires
        keys_distinct(groups_view(old(gs)@)),
    ensures
        groups_view(final(gs)@) == put_group(groups_view(old(gs)@), k@, v@),
        keys_distinct(groups_view(final(gs)@)),
{
    let ghost g0 = groups_view(gs@);
    let mut i: usize = 0;
    while i < gs.len()
        invariant
            i <= gs@.len(),
            g0 == groups_view(gs@),
            g0 == groups_view(old(gs)@),
            keys_distinct(g0),
            forall|j: int| 0 <= j < i ==> (#[trigger] g0[j]).0 != k@,
        decreases gs@.len() - i,
    {
        if same_group(&gs[i].0, &k) {
            let ghost kv = k@;
            let ghost vv = v@;
            gs.set(i, (k, v));
            proof {
                assert(g0[i as int].0 == kv);
                assert(exists|j: int| 0 <= j < g0.len() && (#[trigger] g0[j]).0 == kv);
                assert(groups_view(gs@) =~= Seq::new(g0.len(), |j: int| if g0[j].0 == kv { (kv, vv) } else { g0[j] })) by {
                    assert forall|j: int| 0 <= j < g0.len() implies #[trigger] groups_view(gs@)[j] == (if g0[j].0 == kv { (kv, vv) } else { g0[j] }) by {
                        if j != i && g0[j].0 == kv {
                            assert(g0[j].0 != g0[i as int].0);
                        }
                    }
                }
                assert(groups_view(gs@) == put_group(g0, kv, vv));
                assert(keys_distinct(groups_view(gs@))) by {
                    assert forall|a: int, b: int| 0 <= a < g0.len() && 0 <= b < g0.len() && a != b implies (#[trigger] groups_view(gs@)[a]).0 != (#[trigger] groups_view(gs@)[b]).0 by {
                        assert(g0[a].0 != g0[b].0);
                        if a == i {
                            assert(groups_view(gs@)[a].0 == g0[a].0);
                        }
                        if b == i {
                            assert(groups_view(gs@)[b].0 == g0[b].0);
                        }
                    }
                }
            }
            return ;
        }
        i = i + 1;
    }
    let ghost kv = k@;
    let ghost vv = v@;
    gs.push((k, v));
    proof {
        assert(groups_view(gs@) =~= g0.push((kv, vv)));
        assert(!(exists|j: int| 0 <= j < g0.len() && (#[trigger] g0[j]).0 == kv));
        assert(keys_distinct(groups_view(gs@))) by {
            assert forall|a: int, b: int| 0 <= a < g0.len() + 1 && 0 <= b < g0.len() + 1 && a != b implies (#[trigger] groups_view(gs@)[a]).0 != (#[trigger] groups_view(gs@)[b]).0 by {
                if a < g0.len() && b < g0.len() {
                    assert(g0[a].0 != g0[b].0);
                } else if a < g0.len() {
                    assert(g0[a].0 != kv);
                } else {
                    assert(g0[b].0 != kv);
                }
            }
        }
    }
}

fn number_triple_of(t: &Vec<char>) -> (r: Option<NumberTriple>)
    ensures
        r is Some <==> number_triple(t@) is Some,
        r matches Some(p) ==> p@ == number_triple(t@).unwrap(),
{
    let w = words_of(t);
    let ghost ws = words(t@);
    assert(w@.len() == ws.len());
    if w.len() != 3 {
        return None;
    }
    assert(w@[0]@ == ws[0] && w@[1]@ == ws[1] && w@[2]@ == ws[2]);
    if !is_float_literal_chars(&w[0]) {
        return None;
    }
    if !is_float_literal_chars(&w[1]) {
        return None;
    }
    if !is_float_literal_chars(&w[2]) {
        return None;
    }
    assert forall|i: int| 0 <= i < 3 implies is_float_literal(#[trigger] ws[i]) by {
        if i == 0 {
        } else if i == 1 {
        } else {
        }
    }
    Some(
        NumberTriple {
            x: string_from_chars(&w[0]),
            y: string_from_chars(&w[1]),
            z: string_from_chars(&w[2]),
        },
    )
}

fn first_space_of(line: &Vec<char>) -> (r: Option<usize>)
    ensures
        r is None <==> first_space(line@) is None,
        r matches Some(k) ==> first_space(line@) == Some(k as int) && k < line@.len(),
{
    let mut i: usize = 0;
    while i < line.len()
        invariant
            i <= line@.len(),
            forall|j: int| 0 <= j < i ==> #[trigger] line@[j] != ' ',
        decreases line@.len() - i,
    {
        if line[i] == ' ' {
            proof {
                let k = i as int;
                assert(0 <= k < line@.len() && line@[k] == ' ' && forall|j: int| 0 <= j < k ==> #[trigger] line@[j] != ' ');
                let c = choose|c: int| 0 <= c < line@.len() && line@[c] == ' ' && forall|j: int| 0 <= j < c ==> #[trigger] line@[j] != ' ';
                if c < k {
                    assert(line@[c] != ' ');
                } else if c > k {
                    assert(line@[k] != ' ');
                }
            }
            return Some(i);
        }
        i = i + 1;
    }
    proof {
        if exists|k: int| 0 <= k < line@.len() && line@[k] == ' ' && forall|j: int| 0 <= j < k ==> #[trigger] line@[j] != ' ' {
            let k = choose|k: int| 0 <= k < line@.len() && line@[k] == ' ' && forall|j: int| 0 <= j < k ==> #[trigger] line@[j] != ' ';
            assert(line@[k] != ' ');
        }
    }
    None
}

fn copy_from(line: &Vec<char>, start: usize) -> (r: Vec<char>)
    requires
        start <= line@.len(),
    ensures
        r@ == line@.skip(start as int),
{
    let mut r: Vec<char> = Vec::new();
    let mut j: usize = start;
    while j < line.len()
        invariant
            start <= j <= line@.len(),
            r@ == line@.subrange(start as int, j as int),
        decreases line@.len() - j,
    {
        r.push(line[j]);
        assert(r@ =~= line@.subrange(start as int, j + 1));
        j = j + 1;
    }
    assert(r@ =~= line@.skip(start as int));
    r
}

fn refs_in_range_exec(rs: &Vec<CornerRef>, nv: usize, nn: usize) -> (r: bool)
    ensures
        r == refs_in_range(rs@, nv as nat, nn as nat),
{
    let mut i: usize = 0;
    while i < rs.len()
        invariant
            i <= rs@.len(),
            forall|j: int|
                0 <= j < i ==> 1 <= (#[trigger] rs@[j]).0 <= nv && (rs@[j].1 matches Some(n) ==> 1
                    <= n <= nn),
        decreases rs@.len() - i,
    {
        let (v, n) = rs[i];
        if v < 1 || v > nv {
            return false;
        }
        match n {
            Some(n) => {
                if n < 1 || n > nn {
                    return false;
                }
            },
            None => {},
        }
        i = i + 1;
    }
    true
}

impl WavefrontObj {
    fn bump_ignored(&mut self)
        requires
            (old(self).ignored as nat) < u32::MAX,
        ensures
            final(self)@ == ignore_line(state_of(old(self)@, None, Seq::empty())).model,
            final(self).ignored == old(self).ignored + 1,
    {
        self.ignored = self.ignored + 1;
    }

    /// Reads one line; false when a face refers to a vertex or normal that
    /// has not been read.
    fn apply_line(
        &mut self,
        current: &mut ObjGroup,
        faces: &mut Vec<FaceTriangle>,
        line: &Vec<char>,
    ) -> (ok: bool)
        requires
            (old(self).ignored as nat) < u32::MAX,
            keys_distinct(old(self)@.groups),
        ensures
            keys_distinct(final(self)@.groups),
            ok == !step(state_of(old(self)@, old(current)@, old(faces)@), line@).broken,
            ok ==> state_of(final(self)@, final(current)@, final(faces)@) == step(
                state_of(old(self)@, old(current)@, old(faces)@),
                line@,
            ),
            final(self).ignored <= old(self).ignored + 1,
    {
        let ghost st = state_of(self@, current@, faces@);
        match first_space_of(line) {
            None => {
                self.bump_ignored();
                true
            },
            Some(k) => {
                let n = line.len();
                let raw = copy_from(line, k + 1);
                let tail = trim_chars(&raw);
                let ghost head = line@.take(k as int);
                assert(head.len() == k);
                assert(k >= 1 ==> head[0] == line@[0]);
                assert(k >= 2 ==> head[1] == line@[1]);
                if k == 1 && line[0] == 'v' {
                    assert(head =~= seq!['v']);
                    match number_triple_of(&tail) {
                        Some(p) => {
                            let ghost pv = p@;
                            self.vertices.push(p);
                            assert(triples_view(self.vertices@) =~= st.model.vertices.push(pv));
                        },
                        None => {
                            self.bump_ignored();
                        },
                    }
                    true
                } else if k == 1 && line[0] == 'f' {
                    assert(head =~= seq!['f']);
                    assert(head != seq!['v']);
                    let ws = words_of(&tail);
                    match corner_refs_of(&ws) {
                        None => {
                            self.bump_ignored();
                            true
                        },
                        Some(rs) => {
                            if !refs_in_range_exec(&rs, self.vertices.len(), self.normals.len()) {
                                return false;
                            }
                            if rs.len() >= 3 {
                                let mut ts = fan_triangulate(&rs);
                                let ghost before = faces@;
                                faces.append(&mut ts);
                            } else {
                                self.bump_ignored();
                            }
                            true
                        },
                    }
                } else if k == 1 && line[0] == 'g' {
                    assert(head =~= seq!['g']);
                    assert(head != seq!['v']);
                    assert(head != seq!['f']);
                    let mut name = ObjGroup::Named(string_from_chars(&tail));
                    let mut fs: Vec<FaceTriangle> = Vec::new();
                    std::mem::swap(current, &mut name);
                    std::mem::swap(faces, &mut fs);
                    put_group_exec(&mut self.groups, name, fs);
                    true
                } else if k == 2 && line[0] == 'v' && line[1] == 'n' {
                    assert(head =~= seq!['v', 'n']);
                    assert(head != seq!['v']);
                    assert(head != seq!['f']);
                    assert(head != seq!['g']);
                    match number_triple_of(&tail) {
                        Some(p) => {
                            let ghost pv = p@;
                            self.normals.push(p);
                            assert(triples_view(self.normals@) =~= st.model.normals.push(pv));
                        },
                        None => {
                            self.bump_ignored();
                        },
                    }
                    true
                } else {
                    assert(head != seq!['v']);
                    assert(head != seq!['f']);
                    assert(head != seq!['g']);
                    assert(head != seq!['v', 'n']);
                    self.bump_ignored();
                    true
                }
            },
        }
    }
}

/// Once a face has referred to a record that has not been read, the
/// reader stays broken.
proof fn lemma_broken_stays(ls: Seq<Seq<char>>, j: int)
    requires
        0 <= j <= ls.len(),
        run(ls.take(j)).broken,
    ensures
        run(ls).broken,
    decreases ls.len() - j,
{
    if j < ls.len() {
        assert(ls.take(j + 1).drop_last() =~= ls.take(j));
        lemma_broken_stays(ls, j + 1);
    } else {
        assert(ls.take(j) =~= ls);
    }
}

impl WavefrontObj {
    /// Reads the OBJ file `text`; `None` when a face refers to a vertex or a
    /// normal that has not been read before it.
    pub fn try_parse(text: &str) -> (r: Option<WavefrontObj>)
        requires
            text@.len() <= u32::MAX,
        ensures
            r is Some <==> !parse_fails(text@),
            r matches Some(o) ==> o@ == parse_spec(text@) && keys_distinct(o@.groups),
    {
        let cs = chars_of(text);
        let ls = lines_of(&cs);
        let ghost lv = lines(text@);
        proof {
            lemma_lines_len(text@);
        }
        let mut obj = WavefrontObj {
            ignored: 0,
            groups: Vec::new(),
            vertices: Vec::new(),
            normals: Vec::new(),
        };
        let mut current = ObjGroup::Default;
        let mut faces: Vec<FaceTriangle> = Vec::new();
        assert(obj@.groups =~= Seq::empty());
        assert(obj@.vertices =~= Seq::empty());
        assert(obj@.normals =~= Seq::empty());
        assert(lv.take(0) =~= Seq::empty());
        for i in 0..ls.len()
            invariant
                lv == seqs_view(ls@),
                lv == lines(text@),
                lv.len() <= u32::MAX,
                state_of(obj@, current@, faces@) == run(lv.take(i as int)),
                obj.ignored <= i,
                keys_distinct(obj@.groups),
        {
            assert(lv[i as int] == ls@[i as int]@);
            assert(lv.take(i + 1).drop_last() =~= lv.take(i as int));
            if !obj.apply_line(&mut current, &mut faces, &ls[i]) {
                proof {
                    lemma_broken_stays(lv, i + 1);
                }
                return None;
            }
        }
        assert(lv.take(ls@.len() as int) =~= lv);
        let ghost st = run(lv);
        put_group_exec(&mut obj.groups, current, faces);
        assert(obj@ == parse_spec(text@));
        Some(obj)
    }

    /// Reads the OBJ file `text`, in which every face refers to vertices and
    /// normals read before it.
    pub fn parse(text: &str) -> (obj: WavefrontObj)
        requires
            text@.len() <= u32::MAX,
            !parse_fails(text@),
        ensures
            obj@ == parse_spec(text@),
            keys_distinct(obj@.groups),
    {
        match WavefrontObj::try_parse(text) {
            Some(o) => o,
            None => {
                assert(false);
                WavefrontObj {
                    ignored: 0,
                    groups: Vec::new(),
                    vertices: Vec::new(),
                    normals: Vec::new(),
                }
            },
        }
    }

    /// The number of lines that were ignored.
    pub fn ignored(&self) -> (n: u32)
        ensures
            n == self@.ignored,
    {
        self.ignored
    }

    /// The vertex records, in the order they were read.
    pub fn vertices(&self) -> (v: &Vec<NumberTriple>)
        ensures
            triples_view(v@) == self@.vertices,
    {
        &self.vertices
    }

    /// The vertex normal records, in the order they were read.
    pub fn normals(&self) -> (v: &Vec<NumberTriple>)
        ensures
            triples_view(v@) == self@.normals,
    {
        &self.normals
    }

    /// The groups and their triangles.
    pub fn groups(&self) -> (g: &Vec<(ObjGroup, Vec<FaceTriangle>)>)
        ensures
            groups_view(g@) == self@.groups,
    {
        &self.groups
    }

    /// The triangles of the group `name`, if the file has one.
    pub fn group(&self, name: &ObjGroup) -> (r: Option<&Vec<FaceTriangle>>)
        requires
            keys_distinct(self@.groups),
        ensures
            r is Some <==> lookup_group(self@.groups, name@) is Some,
            r matches Some(v) ==> v@ == lookup_group(self@.groups, name@).unwrap(),
    {
        let ghost gs = self@.groups;
        let mut i: usize = 0;
        while i < self.groups.len()
            invariant
                gs == groups_view(self.groups@),
                gs == self@.groups,
                keys_distinct(gs),
                i <= gs.len(),
                forall|j: int| 0 <= j < i ==> (#[trigger] gs[j]).0 != name@,
            decreases gs.len() - i,
        {
            if same_group(&self.groups[i].0, name) {
                proof {
                    assert(gs[i as int].0 == name@);
                    let c = choose|c: int| 0 <= c < gs.len() && (#[trigger] gs[c]).0 == name@;
                    if c != i {
                        assert(gs[c].0 != gs[i as int].0);
                    }
                }
                return Some(&self.groups[i].1);
            }
            i = i + 1;
        }
        None
    }
}

/// All triangles of the groups `gs`, group after group.
pub open spec fn all_faces(gs: Seq<(Option<Seq<char>>, Seq<FaceTriangle>)>) -> Seq<FaceTriangle>
    decreases gs.len(),
{
    if gs.len() == 0 {
        Seq::empty()
    } else {
        all_faces(gs.drop_last()) + gs.last().1
    }
}

impl WavefrontObj {
    /// Every triangle of the file, group after group: what the file becomes
    /// as a single object.
    pub fn into_triangles(self) -> (ts: Vec<FaceTriangle>)
        ensures
            ts@ == all_faces(self@.groups),
    {
        let ghost gs = self@.groups;
        let mut out: Vec<FaceTriangle> = Vec::new();
        for e in it: self.groups.into_iter()
            invariant
                gs == groups_view(it.seq()),
                out@ == all_faces(gs.take(it.index() as int)),
        {
            let (_name, mut fs) = e;
            let ghost k = it.index() as int;
            assert(gs.take(k + 1).drop_last() =~= gs.take(k));
            assert(gs[k].1 == fs@);
            out.append(&mut fs);
        }
        assert(gs.take(gs.len() as int) =~= gs);
        out
    }
}

/// Whether the triangle `t` refers only to the first `nv` vertices and the
/// first `nn` normals.
pub open spec fn triangle_in_range(t: FaceTriangle, nv: nat, nn: nat) -> bool {
    &&& t.vertices.0 < nv
    &&& t.vertices.1 < nv
    &&& t.vertices.2 < nv
    &&& t.normals matches Some(n) ==> n.0 < nn && n.1 < nn && n.2 < nn
}

/// Whether every triangle of `ts` refers to records among the first `nv`
/// vertices and `nn` normals.
pub open spec fn triangles_in_range(ts: Seq<FaceTriangle>, nv: nat, nn: nat) -> bool {
    forall|i: int| 0 <= i < ts.len() ==> triangle_in_range(#[trigger] ts[i], nv, nn)
}

/// Whether every triangle of every group of `gs` is in range.
pub open spec fn groups_in_range(gs: Seq<(Option<Seq<char>>, Seq<FaceTriangle>)>, nv: nat, nn: nat) -> bool {
    forall|i: int| 0 <= i < gs.len() ==> triangles_in_range((#[trigger] gs[i]).1, nv, nn)
}

proof fn lemma_groups_grow(gs: Seq<(Option<Seq<char>>, Seq<FaceTriangle>)>, nv: nat, nn: nat, nv2: nat, nn2: nat)
    requires
        groups_in_range(gs, nv, nn),
        nv <= nv2,
        nn <= nn2,
    ensures
        groups_in_range(gs, nv2, nn2),
{
    assert forall|i: int| 0 <= i < gs.len() implies triangles_in_range((#[trigger] gs[i]).1, nv2, nn2) by {
        assert(triangles_in_range(gs[i].1, nv, nn));
        assert forall|j: int| 0 <= j < gs[i].1.len() implies triangle_in_range(#[trigger] gs[i].1[j], nv2, nn2) by {
            assert(triangle_in_range(gs[i].1[j], nv, nn));
        }
    }
}

proof fn lemma_put_in_range(
    gs: Seq<(Option<Seq<char>>, Seq<FaceTriangle>)>,
    k: Option<Seq<char>>,
    v: Seq<FaceTriangle>,
    nv: nat,
    nn: nat,
)
    requires
        groups_in_range(gs, nv, nn),
        triangles_in_range(v, nv, nn),
    ensures
        groups_in_range(put_group(gs, k, v), nv, nn),
{
    let p = put_group(gs, k, v);
    assert forall|i: int| 0 <= i < p.len() implies triangles_in_range((#[trigger] p[i]).1, nv, nn) by {
        if i < gs.len() {
            assert(triangles_in_range(gs[i].1, nv, nn));
        }
    }
}

proof fn lemma_run_in_range(ls: Seq<Seq<char>>)
    requires
        !run(ls).broken,
    ensures
        ({
            let st = run(ls);
            let nv = st.model.vertices.len();
            let nn = st.model.normals.len();
            &&& groups_in_range(st.model.groups, nv, nn)
            &&& triangles_in_range(st.faces, nv, nn)
        }),
    decreases ls.len(),
{
    if ls.len() > 0 {
        let prev = run(ls.drop_last());
        if prev.broken {
            assert(ls.take(ls.len() - 1) =~= ls.drop_last());
            lemma_broken_stays(ls, ls.len() - 1);
        }
        lemma_run_in_range(ls.drop_last());
        let st = run(ls);
        let nv0 = prev.model.vertices.len();
        let nn0 = prev.model.normals.len();
        let nv = st.model.vertices.len();
        let nn = st.model.normals.len();
        assert(nv0 <= nv && nn0 <= nn);
        lemma_groups_grow(prev.model.groups, nv0, nn0, nv, nn);
        assert forall|j: int| 0 <= j < prev.faces.len() implies triangle_in_range(#[trigger] prev.faces[j], nv, nn) by {
            assert(triangle_in_range(prev.faces[j], nv0, nn0));
        }
        let line = ls.last();
        match first_space(line) {
            None => {},
            Some(k) => {
                let head = line.take(k);
                let tail = trim(line.skip(k + 1));
                if head == seq!['v'] {
                } else if head == seq!['f'] {
                    match corner_refs(words(tail)) {
                        None => {},
                        Some(rs) => {
                            if rs.len() >= 3 && refs_in_range(rs, nv0, nn0) {
                                let f = fan(rs);
                                assert forall|j: int| 0 <= j < st.faces.len() implies triangle_in_range(#[trigger] st.faces[j], nv, nn) by {
                                    if j >= prev.faces.len() {
                                        let q = j - prev.faces.len();
                                        assert(st.faces[j] == f[q]);
                                        assert(1 <= rs[0].0 <= nv0);
                                        assert(1 <= rs[q + 1].0 <= nv0);
                                        assert(1 <= rs[q + 2].0 <= nv0);
                                    }
                                }
                            }
                        },
                    }
                } else if head == seq!['g'] {
                    lemma_put_in_range(prev.model.groups, prev.current, prev.faces, nv, nn);
                } else {
                }
            },
        }
    }
}

/// Every triangle of a file read without failure refers to vertex and
/// normal records that the file holds.
pub proof fn lemma_parsed_triangles_in_range(text: Seq<char>)
    requires
        !parse_fails(text),
    ensures
        groups_in_range(
            parse_spec(text).groups,
            parse_spec(text).vertices.len(),
            parse_spec(text).normals.len(),
        ),
{
    let st = run(lines(text));
    lemma_run_in_range(lines(text));
    lemma_put_in_range(
        st.model.groups,
        st.current,
        st.faces,
        st.model.vertices.len(),
        st.model.normals.len(),
    );
}

/// A face corner names its vertex by the part before the first slash; a
/// second part (a texture coordinate) is never read, and a normal is named
/// only by a third part. So `v` and `v/t` name vertex `v` and no normal,
/// whatever `t` is, and `v/t/n` names vertex `v` and normal `n`, whatever `t` is.
pub proof fn lemma_corner_parts(a: Seq<char>, t: Seq<char>, t2: Seq<char>, n: Seq<char>)
    requires
        !a.contains('/'),
        !t.contains('/'),
        !t2.contains('/'),
        !n.contains('/'),
    ensures
        corner_ref(a) == match parse_usize(a) {
            Some(v) => Some((v, None::<usize>)),
            None => None,
        },
        corner_ref(a + seq!['/'] + t) == corner_ref(a),
        corner_ref(a + seq!['/'] + t + seq!['/'] + n) == match (parse_usize(a), parse_usize(n)) {
            (Some(v), Some(m)) => Some((v, Some(m))),
            _ => None,
        },
        corner_ref(a + seq!['/'] + t + seq!['/'] + n) == corner_ref(
            a + seq!['/'] + t2 + seq!['/'] + n,
        ),
{
    lemma_split_on_without_sep(a, '/');
    lemma_split_on_without_sep(t, '/');
    lemma_split_on_without_sep(t2, '/');
    lemma_split_on_without_sep(n, '/');
    lemma_split_on_join(a, t, '/');
    assert(split_on(a + seq!['/'] + t, '/') =~= seq![a, t]);
    lemma_split_on_join(a + seq!['/'] + t, n, '/');
    assert(split_on(a + seq!['/'] + t + seq!['/'] + n, '/') =~= seq![a, t, n]);
    lemma_split_on_join(a, t2, '/');
    assert(split_on(a + seq!['/'] + t2, '/') =~= seq![a, t2]);
    lemma_split_on_join(a + seq!['/'] + t2, n, '/');
    assert(split_on(a + seq!['/'] + t2 + seq!['/'] + n, '/') =~= seq![a, t2, n]);
}

/// The file has no triangle that is not in one of its groups: the triangle
/// at position `k` is the triangle at position `ij.1` of group `ij.0`.
pub proof fn lemma_face_origin(gs: Seq<(Option<Seq<char>>, Seq<FaceTriangle>)>, k: int) -> (ij: (
    int,
    int,
))
    requires
        0 <= k < all_faces(gs).len(),
    ensures
        0 <= ij.0 < gs.len(),
        0 <= ij.1 < gs[ij.0].1.len(),
        all_faces(gs)[k] == gs[ij.0].1[ij.1],
    decreases gs.len(),
{
    let r = gs.drop_last();
    let p = all_faces(r);
    let l = gs.last().1;
    assert(all_faces(gs) == p + l);
    if k < p.len() {
        let (i, j) = lemma_face_origin(r, k);
        assert(r[i] == gs[i]);
        (i, j)
    } else {
        (gs.len() - 1, k - p.len())
    }
}

/// Every triangle of every group, the default group included, is among the
/// triangles of the whole file; a file with a single group has exactly that
/// group's triangles.
pub proof fn lemma_all_faces_are_the_groups_faces(gs: Seq<(Option<Seq<char>>, Seq<FaceTriangle>)>)
    ensures
        forall|i: int, j: int|
            0 <= i < gs.len() && 0 <= j < gs[i].1.len() ==> all_faces(gs).contains(
                #[trigger] gs[i].1[j],
            ),
        gs.len() == 1 ==> all_faces(gs) == gs[0].1,
    decreases gs.len(),
{
    if gs.len() > 0 {
        let r = gs.drop_last();
        lemma_all_faces_are_the_groups_faces(r);
        let p = all_faces(r);
        let l = gs.last().1;
        assert(all_faces(gs) == p + l);
        assert forall|i: int, j: int|
            0 <= i < gs.len() && 0 <= j < gs[i].1.len() implies all_faces(gs).contains(
                #[trigger] gs[i].1[j],
            ) by {
            if i == gs.len() - 1 {
                assert((p + l)[p.len() + j] == l[j]);
            } else {
                assert(r[i] == gs[i]);
                assert(p.contains(r[i].1[j]));
                let k = choose|k: int| 0 <= k < p.len() && p[k] == r[i].1[j];
                assert((p + l)[k] == p[k]);
            }
        }
        if gs.len() == 1 {
            assert(r =~= Seq::<(Option<Seq<char>>, Seq<FaceTriangle>)>::empty());
            assert(p + l =~= l);
        }
    } else {
        assert(all_faces(gs).len() == 0);
    }
}

/// Whether `line` is a group record: its first word is `g`.
pub open spec fn is_group_record(line: Seq<char>) -> bool {
    line.len() >= 2 && line[0] == 'g' && line[1] == ' '
}

proof fn lemma_first_space_at(line: Seq<char>, k: int)
    requires
        first_space(line) == Some(k),
    ensures
        0 <= k < line.len(),
        line[k] == ' ',
        forall|j: int| 0 <= j < k ==> line[j] != ' ',
{
}

proof fn lemma_ungrouped_run(ls: Seq<Seq<char>>)
    requires
        forall|i: int| 0 <= i < ls.len() ==> !is_group_record(#[trigger] ls[i]),
    ensures
        run(ls).model.groups == Seq::<(Option<Seq<char>>, Seq<FaceTriangle>)>::empty(),
        run(ls).current == None::<Seq<char>>,
    decreases ls.len(),
{
    if ls.len() > 0 {
        let l = ls.last();
        assert(!is_group_record(ls[ls.len() - 1]));
        lemma_ungrouped_run(ls.drop_last());
        match first_space(l) {
            None => {},
            Some(k) => {
                lemma_first_space_at(l, k);
                if l.take(k) == seq!['g'] {
                    assert(l.take(k).len() == 1);
                    assert(l[0] == l.take(k)[0]);
                    assert(false);
                }
            },
        }
    }
}

/// A file without group records has exactly one group, the default one, and
/// all of its triangles are the triangles of that group.
pub proof fn lemma_ungrouped_file_is_the_default_group(text: Seq<char>)
    requires
        forall|i: int| 0 <= i < lines(text).len() ==> !is_group_record(#[trigger] lines(text)[i]),
    ensures
        parse_spec(text).groups.len() == 1,
        parse_spec(text).groups[0].0 == None::<Seq<char>>,
        lookup_group(parse_spec(text).groups, None) is Some,
        all_faces(parse_spec(text).groups) == lookup_group(parse_spec(text).groups, None).unwrap(),
        all_faces(parse_spec(text).groups) == run(lines(text)).faces,
{
    let st = run(lines(text));
    lemma_ungrouped_run(lines(text));
    let gs = parse_spec(text).groups;
    assert(gs == Seq::<(Option<Seq<char>>, Seq<FaceTriangle>)>::empty().push((None, st.faces)));
    assert(gs[0].0 == None::<Seq<char>>);
    lemma_all_faces_are_the_groups_faces(gs);
    let i = choose|i: int| 0 <= i < gs.len() && (#[trigger] gs[i]).0 == None::<Seq<char>>;
    assert(i == 0);
}

/// Only a record whose first word is `vn` adds a normal: any other line
/// leaves the normals as they were.
pub proof fn lemma_only_vn_records_add_normals(st: ParseState, line: Seq<char>)
    requires
        !(line.len() >= 3 && line[0] == 'v' && line[1] == 'n' && line[2] == ' '),
    ensures
        step(st, line).model.normals == st.model.normals,
{
    match first_space(line) {
        None => {},
        Some(k) => {
            lemma_first_space_at(line, k);
            let head = line.take(k);
            if head == seq!['v', 'n'] {
                assert(head.len() == 2);
                assert(line[0] == head[0]);
                assert(line[1] == head[1]);
                assert(false);
            }
        },
    }
}

/// A texture coordinate record (first word `vt`) is ignored: it adds no
/// vertex, normal or face and is counted among the ignored lines.
pub proof fn lemma_texture_records_are_ignored(st: ParseState, line: Seq<char>)
    requires
        line.len() >= 3,
        line[0] == 'v',
        line[1] == 't',
        line[2] == ' ',
    ensures
        step(st, line) == ignore_line(st),
        step(st, line).model.ignored == st.model.ignored + 1,
        step(st, line).model.normals == st.model.normals,
        step(st, line).model.vertices == st.model.vertices,
{
    assert(forall|j: int| 0 <= j < 2 ==> #[trigger] line[j] != ' ');
    assert(0 <= 2 < line.len() && line[2] == ' ' && forall|j: int| 0 <= j < 2 ==> #[trigger] line[j] != ' ');
    let k = first_space(line).unwrap();
    lemma_first_space_at(line, k);
    if k > 2 {
        assert(line[2] != ' ');
    }
    assert(k == 2);
    let head = line.take(2);
    assert(head.len() == 2 && head[0] == 'v' && head[1] == 't');
    assert(head != seq!['v']);
    assert(head != seq!['f']);
    assert(head != seq!['g']);
    assert(head != seq!['v', 'n']) by {
        assert(seq!['v', 'n'][1] == 'n');
    }
}

} // verus!
