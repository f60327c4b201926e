//! Geometries of vector tiles: command streams, and the paths they draw.

use vstd::prelude::*;

verus! {

/// The number that a zigzag code stands for: 0, -1, 1, -2, 2 and so on.
pub open spec fn zigzag_value(n: u32) -> int {
    if n % 2 == 0 {
        n as int / 2
    } else {
        -(n as int / 2) - 1
    }
}

/// The zigzag code of a number.
pub open spec fn zigzag_code(v: int) -> int {
    if v >= 0 {
        2 * v
    } else {
        -2 * v - 1
    }
}

/// Reads a zigzag code.
pub fn zigzag(n: u32) -> (v: i32)
    ensures
        v == zigzag_value(n),
{
    let half: i32 = (n / 2) as i32;
    if n % 2 == 0 {
        half
    } else {
        -half - 1
    }
}

/// Every 32-bit number has exactly one zigzag code, which reads as that number.
pub proof fn zigzag_is_a_bijection(v: i32, n: u32)
    ensures
        0 <= zigzag_code(v as int) <= u32::MAX,
        zigzag_value(zigzag_code(v as int) as u32) == v,
        i32::MIN <= zigzag_value(n) <= i32::MAX,
        zigzag_code(zigzag_value(n)) == n,
{
}

/// A point in the whole-number coordinates of a tile.
pub type Spot = (int, int);

/// What is drawn when some commands of a geometry have been carried out.
pub struct Trace {
    /// The cursor.
    pub x: int,
    pub y: int,
    /// The path in the making.
    pub current: Seq<Spot>,
    /// The finished paths.
    pub paths: Seq<Seq<Spot>>,
}

impl Trace {
    /// Before the first command: the cursor at the origin, and nothing drawn.
    pub open spec fn start() -> Trace {
        Trace { x: 0, y: 0, current: Seq::empty(), paths: Seq::empty() }
    }

    /// The finished paths, and the one in the making unless it is empty.
    pub open spec fn all_paths(self) -> Seq<Seq<Spot>> {
        if self.current.len() > 0 {
            self.paths.push(self.current)
        } else {
            self.paths
        }
    }

    /// The cursor moves, and a new path starts there.
    pub open spec fn move_by(self, dx: int, dy: int) -> Trace {
        Trace {
            x: self.x + dx,
            y: self.y + dy,
            current: seq![(self.x + dx, self.y + dy)],
            paths: self.all_paths(),
        }
    }

    /// The cursor moves, and the path goes on to there.
    pub open spec fn line_by(self, dx: int, dy: int) -> Trace {
        Trace {
            x: self.x + dx,
            y: self.y + dy,
            current: self.current.push((self.x + dx, self.y + dy)),
            paths: self.paths,
        }
    }

    /// The path goes back to where it started; the cursor stays.
    pub open spec fn close(self) -> Trace {
        if self.current.len() > 0 {
            Trace { current: self.current.push(self.current[0]), ..self }
        } else {
            self
        }
    }

    /// `n` moves (`pen` up) or lines (`pen` down), whose zigzag coordinates
    /// stand in `geom` from `at` on.
    pub open spec fn steps(self, geom: Seq<u32>, at: int, n: nat, pen: bool) -> Trace
        decreases n,
    {
        if n == 0 {
            self
        } else {
            let before = self.steps(geom, at, (n - 1) as nat, pen);
            let dx = zigzag_value(geom[at + 2 * (n - 1)]);
            let dy = zigzag_value(geom[at + 2 * (n - 1) + 1]);
            if pen {
                before.line_by(dx, dy)
            } else {
                before.move_by(dx, dy)
            }
        }
    }

    /// Whether every point drawn fits 32 bits.
    pub open spec fn fits(self) -> bool {
        path_fits(self.current) && forall|k: int|
            0 <= k < self.paths.len() ==> path_fits(#[trigger] self.paths[k])
    }
}

/// Whether both coordinates fit 32 bits.
pub open spec fn spot_fits(p: Spot) -> bool {
    i32::MIN <= p.0 <= i32::MAX && i32::MIN <= p.1 <= i32::MAX
}

/// Whether all coordinates of a path fit 32 bits.
pub open spec fn path_fits(path: Seq<Spot>) -> bool {
    forall|i: int| 0 <= i < path.len() ==> spot_fits(#[trigger] path[i])
}

/// The number of coordinate pairs that the command at `i` takes: as many as it
/// says, or as many as there are.
pub open spec fn pairs_at(geom: Seq<u32>, i: int) -> int {
    let said = geom[i] as int / 8;
    let there = (geom.len() - (i + 1)) / 2;
    if said <= there {
        said
    } else {
        there
    }
}

/// What is drawn when the commands of `geom` from `i` on follow on `trace`.
///
/// The low three bits of a command say what to do: 1 moves, 2 draws lines, 7
/// closes the path, and anything else ends the drawing. The bits above count
/// the coordinate pairs that follow a 1 or a 2.
pub open spec fn follow(geom: Seq<u32>, i: int, trace: Trace) -> Trace
    decreases geom.len() - i,
{
    if i < 0 || i >= geom.len() {
        trace
    } else {
        let command = geom[i] % 8;
        let n = pairs_at(geom, i);
        if command == 1 || command == 2 {
            follow(
                geom,
                i + 1 + 2 * n,
                trace.steps(geom, i + 1, n as nat, command == 2),
            )
        } else if command == 7 {
            follow(geom, i + 1, trace.close())
        } else {
            trace
        }
    }
}

/// The paths of a geometry.
pub open spec fn geom_paths(geom: Seq<u32>) -> Seq<Seq<Spot>> {
    follow(geom, 0, Trace::start()).all_paths()
}

/// Whether the points of a geometry all fit 32 bits.
pub open spec fn geom_fits(geom: Seq<u32>) -> bool {
    forall|k: int| 0 <= k < geom_paths(geom).len() ==> path_fits(#[trigger] geom_paths(geom)[k])
}

/// The points of a path.
pub open spec fn spots(path: Seq<(i32, i32)>) -> Seq<Spot> {
    path.map_values(|p: (i32, i32)| (p.0 as int, p.1 as int))
}

/// The points of each path.
pub open spec fn spots_of(paths: Seq<Vec<(i32, i32)>>) -> Seq<Seq<Spot>> {
    paths.map_values(|p: Vec<(i32, i32)>| spots(p@))
}

/// No step takes a drawn point back.
proof fn lemma_steps_keep(trace: Trace, geom: Seq<u32>, at: int, n: nat, pen: bool)
    ensures
        trace.steps(geom, at, n, pen).fits() ==> trace.fits(),
    decreases n,
{
    if n > 0 {
        lemma_steps_keep(trace, geom, at, (n - 1) as nat, pen);
        let before = trace.steps(geom, at, (n - 1) as nat, pen);
        let dx = zigzag_value(geom[at + 2 * (n - 1)]);
        let dy = zigzag_value(geom[at + 2 * (n - 1) + 1]);
        lemma_step_keeps(before, dx, dy);
    }
}

proof fn lemma_step_keeps(trace: Trace, dx: int, dy: int)
    ensures
        trace.move_by(dx, dy).fits() ==> trace.fits() && spot_fits((trace.x + dx, trace.y + dy)),
        trace.line_by(dx, dy).fits() ==> trace.fits() && spot_fits((trace.x + dx, trace.y + dy)),
        trace.close().fits() <==> trace.fits(),
{
    let moved = trace.move_by(dx, dy);
    if moved.fits() {
        assert(spot_fits(moved.current[0]));
        assert forall|k: int| 0 <= k < trace.paths.len() implies path_fits(
            #[trigger] trace.paths[k],
        ) by {
            assert(moved.paths[k] == trace.paths[k]);
        }
        if trace.current.len() > 0 {
            assert(path_fits(moved.paths[trace.paths.len() as int]));
        }
    }
    let lined = trace.line_by(dx, dy);
    if lined.fits() {
        assert(spot_fits(lined.current[trace.current.len() as int]));
        assert forall|i: int| 0 <= i < trace.current.len() implies spot_fits(
            #[trigger] trace.current[i],
        ) by {
            assert(spot_fits(lined.current[i]));
        }
        assert forall|k: int| 0 <= k < trace.paths.len() implies path_fits(
            #[trigger] trace.paths[k],
        ) by {
            assert(path_fits(lined.paths[k]));
        }
    }
    let closed = trace.close();
    if closed.fits() && trace.current.len() > 0 {
        assert forall|i: int| 0 <= i < trace.current.len() implies spot_fits(
            #[trigger] trace.current[i],
        ) by {
            assert(spot_fits(closed.current[i]));
        }
        assert forall|k: int| 0 <= k < trace.paths.len() implies path_fits(
            #[trigger] trace.paths[k],
        ) by {
            assert(path_fits(closed.paths[k]));
        }
    }
    if trace.fits() && trace.current.len() > 0 {
        assert(spot_fits(trace.current[0]));
        assert forall|k: int| 0 <= k < closed.paths.len() implies path_fits(
            #[trigger] closed.paths[k],
        ) by {
            assert(path_fits(trace.paths[k]));
        }
        assert forall|i: int| 0 <= i < closed.current.len() implies spot_fits(
            #[trigger] closed.current[i],
        ) by {
            if i < trace.current.len() {
                assert(spot_fits(trace.current[i]));
            }
        }
    }
}

proof fn lemma_follow_keeps(geom: Seq<u32>, i: int, trace: Trace)
    ensures
        follow(geom, i, trace).fits() ==> trace.fits(),
    decreases geom.len() - i,
{
    if 0 <= i < geom.len() {
        let command = geom[i] % 8;
        let n = pairs_at(geom, i);
        if command == 1 || command == 2 {
            lemma_steps_keep(trace, geom, i + 1, n as nat, command == 2);
            lemma_follow_keeps(
                geom,
                i + 1 + 2 * n,
                trace.steps(geom, i + 1, n as nat, command == 2),
            );
        } else if command == 7 {
            lemma_step_keeps(trace, 0, 0);
            lemma_follow_keeps(geom, i + 1, trace.close());
        }
    }
}

/// The points of a geometry fit exactly if all that is drawn on the way does.
proof fn lemma_geom_fits(geom: Seq<u32>)
    ensures
        geom_fits(geom) <==> follow(geom, 0, Trace::start()).fits(),
{
    let last = follow(geom, 0, Trace::start());
    if geom_fits(geom) {
        assert forall|k: int| 0 <= k < last.paths.len() implies path_fits(#[trigger] last.paths[k]) by {
            assert(geom_paths(geom)[k] == last.paths[k]);
        }
        if last.current.len() > 0 {
            assert(path_fits(geom_paths(geom)[last.paths.len() as int]));
        }
    }
}

/// `a + b`, if it fits 32 bits.
fn sum(a: i32, b: i32) -> (r: Option<i32>)
    ensures
        r is Some <==> i32::MIN <= a + b <= i32::MAX,
        r matches Some(s) ==> s == a + b,
{
    let s: i64 = a as i64 + b as i64;
    if i32::MIN as i64 <= s && s <= i32::MAX as i64 {
        Some(s as i32)
    } else {
        None
    }
}

/// The paths of a geometry; none if a point of it does not fit 32 bits.
pub fn try_decode_geom(geom: &[u32]) -> (r: Option<Vec<Vec<(i32, i32)>>>)
    ensures
        r is Some <==> geom_fits(geom@),
        r matches Some(paths) ==> spots_of(paths@) == geom_paths(geom@),
{
    let mut paths: Vec<Vec<(i32, i32)>> = Vec::new();
    let mut current: Vec<(i32, i32)> = Vec::new();
    let mut x: i32 = 0;
    let mut y: i32 = 0;
    let mut i: usize = 0;
    let ghost mut trace = Trace::start();
    let ghost whole = follow(geom@, 0, Trace::start());
    proof {
        lemma_geom_fits(geom@);
        assert(spots(current@) =~= trace.current);
        assert(spots_of(paths@) =~= trace.paths);
    }
    while i < geom.len()
        invariant_except_break
            follow(geom@, i as int, trace) == whole,
        invariant
            i <= geom@.len(),
            geom_fits(geom@) <==> whole.fits(),
            trace.x == x,
            trace.y == y,
            trace.current == spots(current@),
            trace.paths == spots_of(paths@),
            trace.fits(),
        ensures
            trace == whole,
        decreases geom@.len() - i,
    {
        let command: u32 = geom[i] % 8;
        let count: u32 = geom[i] / 8;
        let ghost start = i as int;
        let ghost total = pairs_at(geom@, start);
        let ghost before = trace;
        i = i + 1;
        if command == 1 || command == 2 {
            let pen: bool = command == 2;
            let mut k: u32 = 0;
            while k < count && i < geom.len() && i + 1 < geom.len()
                invariant
                    0 <= k <= total <= count,
                    i <= geom@.len(),
                    i == start + 1 + 2 * k,
                    total == pairs_at(geom@, start),
                    0 <= start < geom@.len(),
                    count == geom@[start] / 8,
                    geom_fits(geom@) <==> whole.fits(),
                    whole == follow(
                        geom@,
                        start + 1 + 2 * total,
                        before.steps(geom@, start + 1, total as nat, pen),
                    ),
                    trace == before.steps(geom@, start + 1, k as nat, pen),
                    trace.x == x,
                    trace.y == y,
                    trace.current == spots(current@),
                    trace.paths == spots_of(paths@),
                    trace.fits(),
                decreases count - k,
            {
                let dx: i32 = zigzag(geom[i]);
                let dy: i32 = zigzag(geom[i + 1]);
                let ghost next = before.steps(geom@, start + 1, (k + 1) as nat, pen);
                proof {
                    assert(next == if pen {
                        trace.line_by(dx as int, dy as int)
                    } else {
                        trace.move_by(dx as int, dy as int)
                    });
                    lemma_step_keeps(trace, dx as int, dy as int);
                    lemma_steps_split(before, geom@, start + 1, (k + 1) as nat, total as nat, pen);
                    lemma_follow_keeps(
                        geom@,
                        start + 1 + 2 * total,
                        before.steps(geom@, start + 1, total as nat, pen),
                    );
                }
                match (sum(x, dx), sum(y, dy)) {
                    (Some(nx), Some(ny)) => {
                        x = nx;
                        y = ny;
                    },
                    _ => {
                        return None;
                    },
                }
                i = i + 2;
                let ghost old_current = current@;
                let ghost old_paths = paths@;
                if !pen {
                    if current.len() > 0 {
                        paths.push(current);
                        current = Vec::new();
                        proof {
                            assert(spots_of(paths@) =~= spots_of(old_paths).push(spots(old_current)));
                        }
                    }
                }
                current.push((x, y));
                proof {
                    trace = next;
                    assert(spots(current@) =~= trace.current);
                    assert(trace.fits());
                }
                k = k + 1;
            }
        } else if command == 7 {
            proof {
                lemma_step_keeps(trace, 0, 0);
            }
            if current.len() > 0 {
                let first = current[0];
                current.push(first);
            }
            proof {
                trace = trace.close();
                assert(spots(current@) =~= trace.current);
            }
        } else {
            break ;
        }
    }
    let ghost old_current = current@;
    let ghost old_paths = paths@;
    if current.len() > 0 {
        paths.push(current);
        proof {
            assert(spots_of(paths@) =~= spots_of(old_paths).push(spots(old_current)));
        }
    }
    Some(paths)
}

/// If more steps fit, so did the fewer before them.
proof fn lemma_steps_split(trace: Trace, geom: Seq<u32>, at: int, n: nat, m: nat, pen: bool)
    requires
        n <= m,
    ensures
        trace.steps(geom, at, m, pen).fits() ==> trace.steps(geom, at, n, pen).fits(),
    decreases m,
{
    if n < m {
        lemma_steps_split(trace, geom, at, n, (m - 1) as nat, pen);
        let before = trace.steps(geom, at, (m - 1) as nat, pen);
        lemma_step_keeps(
            before,
            zigzag_value(geom[at + 2 * (m - 1)]),
            zigzag_value(geom[at + 2 * (m - 1) + 1]),
        );
    }
}

/// The paths of a geometry whose points all fit 32 bits.
pub fn decode_geom(geom: &[u32]) -> (paths: Vec<Vec<(i32, i32)>>)
    requires
        geom_fits(geom@),
    ensures
        spots_of(paths@) == geom_paths(geom@),
{
    match try_decode_geom(geom) {
        Some(paths) => paths,
        None => Vec::new(),
    }
}

/// The coordinates that lead from one point of a path to the next, as zigzag
/// codes.
pub open spec fn path_deltas(path: Seq<Spot>) -> Seq<u32> {
    Seq::new(
        (2 * (path.len() - 1)) as nat,
        |j: int|
            zigzag_code(
                if j % 2 == 0 {
                    path[j / 2 + 1].0 - path[j / 2].0
                } else {
                    path[j / 2 + 1].1 - path[j / 2].1
                },
            ) as u32,
    )
}

/// The geometry that draws one open path: a move to its first point, and lines
/// through the others.
pub open spec fn path_geom(path: Seq<Spot>) -> Seq<u32> {
    let head = seq![9u32, zigzag_code(path[0].0) as u32, zigzag_code(path[0].1) as u32];
    head + seq![(8 * (path.len() - 1) + 2) as u32] + path_deltas(path)
}

/// Whether consecutive points of a path are at most 32 bits apart.
pub open spec fn steps_fit(path: Seq<Spot>) -> bool {
    forall|i: int|
        0 <= i < path.len() - 1 ==> spot_fits(
            ((#[trigger] path[i + 1]).0 - path[i].0, path[i + 1].1 - path[i].1),
        )
}

/// What an encoder wrote is what is read: the geometry of a path decodes to
/// that one path, and with a command to close it (15) to the path that also
/// returns to its first point.
pub proof fn path_reads_back(path: Seq<Spot>)
    requires
        2 <= path.len() < 0x2000_0000,
        path_fits(path),
        steps_fit(path),
    ensures
        geom_paths(path_geom(path)) == seq![path],
        geom_paths(path_geom(path).push(15)) == seq![path.push(path[0])],
{
    let open = path_geom(path);
    let ring = open.push(15);
    lemma_follows_path(path, open);
    lemma_follows_path(path, ring);
    let end = 2 + 2 * path.len() as int;
    let drawn = Trace::start().steps(open, 1, 1, false).steps(open, 4, (path.len() - 1) as nat, true);
    let drawn_ring = Trace::start().steps(ring, 1, 1, false).steps(
        ring,
        4,
        (path.len() - 1) as nat,
        true,
    );
    assert(follow(open, end, drawn) == drawn);
    assert(drawn.all_paths() =~= seq![path]);
    assert(ring[end] == 15);
    assert(follow(ring, end + 1, drawn_ring.close()) == drawn_ring.close());
    assert(follow(ring, end, drawn_ring) == drawn_ring.close());
    assert(drawn_ring.close().all_paths() =~= seq![path.push(path[0])]);
}

/// A geometry that starts with that of a path draws the path first.
proof fn lemma_follows_path(path: Seq<Spot>, geom: Seq<u32>)
    requires
        2 <= path.len() < 0x2000_0000,
        path_fits(path),
        steps_fit(path),
        geom.len() >= path_geom(path).len(),
        forall|i: int| 0 <= i < path_geom(path).len() ==> geom[i] == path_geom(path)[i],
    ensures
        ({
            let n = (path.len() - 1) as nat;
            let t = Trace::start().steps(geom, 1, 1, false).steps(geom, 4, n, true);
            &&& path_geom(path).len() == 4 + 2 * n
            &&& follow(geom, 0, Trace::start()) == follow(geom, 4 + 2 * n as int, t)
            &&& t.current == path
            &&& t.paths == Seq::<Seq<Spot>>::empty()
        }),
{
    let n = (path.len() - 1) as nat;
    let start = Trace::start();
    assert(path_geom(path).len() == 4 + 2 * n);
    assert(geom[0] == 9u32);
    assert(geom[1] == zigzag_code(path[0].0) as u32);
    assert(geom[2] == zigzag_code(path[0].1) as u32);
    assert(geom[3] == (8 * n + 2) as u32);
    assert(spot_fits(path[0]));
    assert(pairs_at(geom, 0) == 1);
    let one = start.steps(geom, 1, 1, false);
    assert(start.steps(geom, 1, 0, false) == start);
    assert(one == start.move_by(path[0].0, path[0].1));
    assert(one.current =~= path.take(1));
    assert(pairs_at(geom, 3) == n);
    lemma_reads_on(path, geom, one, n);
    let two = one.steps(geom, 4, n, true);
    assert((8 * n + 2) as u32 % 8 == 2);
    assert(follow(geom, 3, one) == follow(geom, 4 + 2 * n as int, two));
    assert(follow(geom, 0, start) == follow(geom, 3, one));
    assert(path.take(n as int + 1) =~= path);
}

proof fn lemma_reads_on(path: Seq<Spot>, geom: Seq<u32>, one: Trace, k: nat)
    requires
        2 <= path.len() < 0x2000_0000,
        path_fits(path),
        steps_fit(path),
        k < path.len(),
        geom.len() >= path_geom(path).len(),
        forall|i: int| 0 <= i < path_geom(path).len() ==> geom[i] == path_geom(path)[i],
        one.x == path[0].0,
        one.y == path[0].1,
        one.current == path.take(1),
    ensures
        ({
            let t = one.steps(geom, 4, k, true);
            t.x == path[k as int].0 && t.y == path[k as int].1 && t.current == path.take(
                k as int + 1,
            ) && t.paths == one.paths
        }),
    decreases k,
{
    if k > 0 {
        lemma_reads_on(path, geom, one, (k - 1) as nat);
        let before = one.steps(geom, 4, (k - 1) as nat, true);
        let d = path_deltas(path);
        let j = 2 * (k - 1);
        assert(path_geom(path)[4 + j] == d[j]);
        assert(path_geom(path)[4 + j + 1] == d[j + 1]);
        assert(j / 2 == k - 1 && j % 2 == 0 && (j + 1) / 2 == k - 1 && (j + 1) % 2 == 1);
        assert(spot_fits(
            (path[(k - 1) + 1].0 - path[k - 1].0, path[(k - 1) + 1].1 - path[k - 1].1),
        ));
        let dx = path[k as int].0 - path[k - 1].0;
        let dy = path[k as int].1 - path[k - 1].1;
        zigzag_is_a_bijection(dx as i32, 0);
        zigzag_is_a_bijection(dy as i32, 0);
        assert(one.steps(geom, 4, k, true) == before.line_by(dx, dy));
        assert(path.take(k as int).push(path[k as int]) =~= path.take(k as int + 1));
    }
}

/// No path of a geometry is empty.
pub proof fn paths_have_points(geom: Seq<u32>)
    ensures
        forall|k: int| 0 <= k < geom_paths(geom).len() ==> (#[trigger] geom_paths(geom)[k]).len() > 0,
{
    lemma_follow_points(geom, 0, Trace::start());
}

spec fn points_in_all(paths: Seq<Seq<Spot>>) -> bool {
    forall|k: int| 0 <= k < paths.len() ==> (#[trigger] paths[k]).len() > 0
}

proof fn lemma_follow_points(geom: Seq<u32>, i: int, trace: Trace)
    requires
        points_in_all(trace.paths),
    ensures
        points_in_all(follow(geom, i, trace).paths),
    decreases geom.len() - i,
{
    if 0 <= i < geom.len() {
        let command = geom[i] % 8;
        let n = pairs_at(geom, i);
        if command == 1 || command == 2 {
            lemma_steps_points(trace, geom, i + 1, n as nat, command == 2);
            lemma_follow_points(
                geom,
                i + 1 + 2 * n,
                trace.steps(geom, i + 1, n as nat, command == 2),
            );
        } else if command == 7 {
            lemma_follow_points(geom, i + 1, trace.close());
        }
    }
}

proof fn lemma_steps_points(trace: Trace, geom: Seq<u32>, at: int, n: nat, pen: bool)
    requires
        points_in_all(trace.paths),
    ensures
        points_in_all(trace.steps(geom, at, n, pen).paths),
    decreases n,
{
    if n > 0 {
        lemma_steps_points(trace, geom, at, (n - 1) as nat, pen);
    }
}

/// Closing a path leads it back to where it started, and leaves the cursor.
pub proof fn closed_path_returns(trace: Trace)
    requires
        trace.current.len() > 0,
    ensures
        trace.close().current.last() == trace.current[0],
        trace.close().current.drop_last() == trace.current,
        (trace.close().x, trace.close().y) == (trace.x, trace.y),
{
    assert(trace.close().current.drop_last() =~= trace.current);
}

/// Whether the commands from `i` on are complete: moves, lines and closings
/// only, and no coordinate pair missing.
pub open spec fn complete_from(geom: Seq<u32>, i: int) -> bool
    decreases geom.len() - i,
{
    if i < 0 || i > geom.len() {
        false
    } else if i == geom.len() {
        true
    } else {
        let command = geom[i] % 8;
        if command == 1 || command == 2 {
            pairs_at(geom, i) == geom[i] as int / 8 && complete_from(
                geom,
                i + 1 + 2 * pairs_at(geom, i),
            )
        } else {
            command == 7 && complete_from(geom, i + 1)
        }
    }
}

/// The cursor when all commands have been carried out.
pub open spec fn cursor_after(geom: Seq<u32>) -> Spot {
    let t = follow(geom, 0, Trace::start());
    (t.x, t.y)
}

/// A path with every point moved.
pub open spec fn moved_path(path: Seq<Spot>, by: Spot) -> Seq<Spot> {
    path.map_values(|p: Spot| (p.0 + by.0, p.1 + by.1))
}

/// Paths with every point moved.
pub open spec fn moved_paths(paths: Seq<Seq<Spot>>, by: Spot) -> Seq<Seq<Spot>> {
    paths.map_values(|path: Seq<Spot>| moved_path(path, by))
}

/// One geometry after another draws both: a complete geometry, followed by one
/// that begins with a move, decodes to the paths of the first, and those of the
/// second moved by where the first left the cursor.
pub proof fn geometries_follow_each_other(first: Seq<u32>, second: Seq<u32>)
    requires
        complete_from(first, 0),
        second.len() >= 3,
        second[0] % 8 == 1,
        second[0] >= 8,
    ensures
        geom_paths(first + second) == geom_paths(first) + moved_paths(
            geom_paths(second),
            cursor_after(first),
        ),
{
    let both = first + second;
    let start = Trace::start();
    let t = follow(first, 0, start);
    let by = cursor_after(first);
    lemma_first_part(first, second, 0, start);
    let n = pairs_at(second, 0);
    let at = first.len() as int;
    assert(both[at] == second[0]);
    assert(pairs_at(both, at) == n && n >= 1);
    lemma_first_moves(first, second, t, n as nat);
    let tb = t.steps(both, at + 1, n as nat, false);
    let ts = start.steps(second, 1, n as nat, false);
    lemma_second_part(first, second, 1 + 2 * n, tb, ts, t.all_paths(), by);
    assert(follow(both, at, t) == follow(both, at + 1 + 2 * n, tb));
    assert(follow(second, 0, start) == follow(second, 1 + 2 * n, ts));
    let fb = follow(both, at, t);
    let fs = follow(second, 0, start);
    assert(fb.all_paths() =~= t.all_paths() + moved_paths(fs.all_paths(), by));
}

/// Up to its end, a complete geometry is carried out as if nothing followed.
proof fn lemma_first_part(first: Seq<u32>, second: Seq<u32>, i: int, t: Trace)
    requires
        complete_from(first, i),
    ensures
        follow(first + second, i, t) == follow(
            first + second,
            first.len() as int,
            follow(first, i, t),
        ),
    decreases first.len() - i,
{
    let both = first + second;
    if i < first.len() {
        assert(both[i] == first[i]);
        let command = first[i] % 8;
        let n = pairs_at(first, i);
        if command == 1 || command == 2 {
            assert(pairs_at(both, i) == n);
            lemma_same_steps(first, both, t, i + 1, n as nat, command == 2);
            lemma_first_part(
                first,
                second,
                i + 1 + 2 * n,
                t.steps(first, i + 1, n as nat, command == 2),
            );
        } else {
            lemma_first_part(first, second, i + 1, t.close());
        }
    }
}

/// Steps depend on their coordinates alone.
proof fn lemma_same_steps(a: Seq<u32>, b: Seq<u32>, t: Trace, at: int, n: nat, pen: bool)
    requires
        forall|j: int| at <= j < at + 2 * n ==> #[trigger] a[j] == b[j],
    ensures
        t.steps(a, at, n, pen) == t.steps(b, at, n, pen),
    decreases n,
{
    if n > 0 {
        lemma_same_steps(a, b, t, at, (n - 1) as nat, pen);
        let j = at + 2 * (n - 1);
        assert(a[j] == b[j]);
        assert(a[j + 1] == b[j + 1]);
    }
}

/// Whether a trace is another moved, with some paths finished before.
spec fn moved_trace(t: Trace, s: Trace, done: Seq<Seq<Spot>>, by: Spot) -> bool {
    &&& t.x == s.x + by.0
    &&& t.y == s.y + by.1
    &&& t.current == moved_path(s.current, by)
    &&& t.paths == done + moved_paths(s.paths, by)
}

proof fn lemma_moved_step(t: Trace, s: Trace, done: Seq<Seq<Spot>>, by: Spot, dx: int, dy: int)
    requires
        moved_trace(t, s, done, by),
    ensures
        moved_trace(t.move_by(dx, dy), s.move_by(dx, dy), done, by),
        moved_trace(t.line_by(dx, dy), s.line_by(dx, dy), done, by),
        moved_trace(t.close(), s.close(), done, by),
{
    assert(t.move_by(dx, dy).current =~= moved_path(s.move_by(dx, dy).current, by));
    assert(t.move_by(dx, dy).paths =~= done + moved_paths(s.move_by(dx, dy).paths, by));
    assert(t.line_by(dx, dy).current =~= moved_path(s.line_by(dx, dy).current, by));
    assert(t.close().current =~= moved_path(s.close().current, by));
}

/// The moves that begin the second geometry.
proof fn lemma_first_moves(first: Seq<u32>, second: Seq<u32>, t: Trace, n: nat)
    requires
        n >= 1,
        1 + 2 * n <= second.len(),
    ensures
        moved_trace(
            t.steps(first + second, first.len() as int + 1, n, false),
            Trace::start().steps(second, 1, n, false),
            t.all_paths(),
            (t.x, t.y),
        ),
    decreases n,
{
    let both = first + second;
    let at = first.len() as int + 1;
    let (k, l) = (1 + 2 * (n - 1), 1 + 2 * (n - 1) + 1);
    assert(both[at + 2 * (n - 1)] == second[k]);
    assert(both[at + 2 * (n - 1) + 1] == second[l]);
    let (dx, dy) = (zigzag_value(second[k]), zigzag_value(second[l]));
    let start = Trace::start();
    if n == 1 {
        assert(t.steps(both, at, 0, false) == t);
        assert(start.steps(second, 1, 0, false) == start);
        let a = t.move_by(dx, dy);
        let b = start.move_by(dx, dy);
        assert(a.current =~= moved_path(b.current, (t.x, t.y)));
        assert(a.paths =~= t.all_paths() + moved_paths(b.paths, (t.x, t.y)));
    } else {
        lemma_first_moves(first, second, t, (n - 1) as nat);
        lemma_moved_step(
            t.steps(both, at, (n - 1) as nat, false),
            start.steps(second, 1, (n - 1) as nat, false),
            t.all_paths(),
            (t.x, t.y),
            dx,
            dy,
        );
    }
}

proof fn lemma_moved_steps(
    first: Seq<u32>,
    second: Seq<u32>,
    t: Trace,
    s: Trace,
    done: Seq<Seq<Spot>>,
    by: Spot,
    i: int,
    n: nat,
    pen: bool,
)
    requires
        0 <= i,
        i + 2 * n <= second.len(),
        moved_trace(t, s, done, by),
    ensures
        moved_trace(
            t.steps(first + second, first.len() + i, n, pen),
            s.steps(second, i, n, pen),
            done,
            by,
        ),
    decreases n,
{
    if n > 0 {
        lemma_moved_steps(first, second, t, s, done, by, i, (n - 1) as nat, pen);
        let both = first + second;
        let at = first.len() + i;
        let (k, l) = (i + 2 * (n - 1), i + 2 * (n - 1) + 1);
        assert(both[at + 2 * (n - 1)] == second[k]);
        assert(both[at + 2 * (n - 1) + 1] == second[l]);
        lemma_moved_step(
            t.steps(both, at, (n - 1) as nat, pen),
            s.steps(second, i, (n - 1) as nat, pen),
            done,
            by,
            zigzag_value(second[k]),
            zigzag_value(second[l]),
        );
    }
}

/// From its `i`-th word on, the second geometry is carried out as if it stood
/// alone, but moved.
proof fn lemma_second_part(
    first: Seq<u32>,
    second: Seq<u32>,
    i: int,
    t: Trace,
    s: Trace,
    done: Seq<Seq<Spot>>,
    by: Spot,
)
    requires
        0 <= i <= second.len(),
        moved_trace(t, s, done, by),
    ensures
        moved_trace(
            follow(first + second, first.len() + i, t),
            follow(second, i, s),
            done,
            by,
        ),
    decreases second.len() - i,
{
    let both = first + second;
    let at = first.len() + i;
    if i < second.len() {
        assert(both[at] == second[i]);
        let command = second[i] % 8;
        let n = pairs_at(second, i);
        assert(pairs_at(both, at) == n);
        if command == 1 || command == 2 {
            lemma_moved_steps(first, second, t, s, done, by, i + 1, n as nat, command == 2);
            lemma_second_part(
                first,
                second,
                i + 1 + 2 * n,
                t.steps(both, at + 1, n as nat, command == 2),
                s.steps(second, i + 1, n as nat, command == 2),
                done,
                by,
            );
        } else if command == 7 {
            lemma_moved_step(t, s, done, by, 0, 0);
            lemma_second_part(first, second, i + 1, t.close(), s.close(), done, by);
        }
    }
}

/// What is not a move, a line or a closing ends the drawing: nothing behind it is
/// carried out.
pub proof fn other_commands_end_the_drawing(first: Seq<u32>, rest: Seq<u32>)
    requires
        complete_from(first, 0),
        rest.len() > 0,
        rest[0] % 8 != 1,
        rest[0] % 8 != 2,
        rest[0] % 8 != 7,
    ensures
        geom_paths(first + rest) == geom_paths(first),
{
    lemma_first_part(first, rest, 0, Trace::start());
    assert((first + rest)[first.len() as int] == rest[0]);
}

/// A command that asks for more coordinates than there are is carried out with
/// those that are there, as one that asks for just them.
pub proof fn missing_coordinates_are_passed_over(first: Seq<u32>, said: u32, coords: Seq<u32>)
    requires
        complete_from(first, 0),
        coords.len() % 2 == 0,
        coords.len() < 0x2000_0000,
        said % 8 == 1 || said % 8 == 2,
        said as int / 8 >= coords.len() / 2,
    ensures
        geom_paths(first + (seq![said] + coords)) == geom_paths(
            first + (seq![(8 * (coords.len() / 2) + said % 8) as u32] + coords),
        ),
{
    let fair = (8 * (coords.len() / 2) + said % 8) as u32;
    let (a, b) = (seq![said] + coords, seq![fair] + coords);
    let (x, y) = (first + a, first + b);
    let start = Trace::start();
    lemma_first_part(first, a, 0, start);
    lemma_first_part(first, b, 0, start);
    let t = follow(first, 0, start);
    let at = first.len() as int;
    let n = coords.len() / 2;
    assert(x[at] == said && y[at] == fair);
    assert(fair % 8 == said % 8 && fair as int / 8 == n);
    assert(pairs_at(x, at) == n && pairs_at(y, at) == n);
    assert forall|j: int| at + 1 <= j < at + 1 + 2 * n implies #[trigger] x[j] == y[j] by {
        assert(x[j] == coords[j - at - 1]);
        assert(y[j] == coords[j - at - 1]);
    }
    lemma_same_steps(x, y, t, at + 1, n as nat, said % 8 == 2);
    assert(x.len() == at + 1 + 2 * n && y.len() == x.len());
    let (u, v) = (
        t.steps(x, at + 1, n as nat, said % 8 == 2),
        t.steps(y, at + 1, n as nat, fair % 8 == 2),
    );
    assert(u == v);
    assert(follow(x, at + 1 + 2 * n, u) == u);
    assert(follow(y, at + 1 + 2 * n, v) == v);
    assert(follow(x, at, t) == follow(x, at + 1 + 2 * n, u));
    assert(follow(y, at, t) == follow(y, at + 1 + 2 * n, v));
}

/// Each move leaves the path so far and starts one of its own, and each line adds
/// one point to the path so far; both leave the cursor at the point that they add.
pub proof fn moves_start_paths_and_lines_go_on(t: Trace, geom: Seq<u32>, at: int, n: nat)
    requires
        n > 0,
    ensures
        ({
            let up = t.steps(geom, at, n, false);
            let down = t.steps(geom, at, n, true);
            &&& up.all_paths().len() == t.all_paths().len() + n
            &&& up.all_paths().take(t.all_paths().len() as int) == t.all_paths()
            &&& forall|k: int|
                t.all_paths().len() <= k < up.all_paths().len() ==> (#[trigger] up.all_paths()[k]).len()
                    == 1
            &&& up.all_paths().last() == seq![(up.x, up.y)]
            &&& down.paths == t.paths
            &&& down.current.len() == t.current.len() + n
            &&& down.current.take(t.current.len() as int) == t.current
            &&& down.current.last() == (down.x, down.y)
            &&& (up.x, up.y) == (down.x, down.y)
        }),
    decreases n,
{
    let up = t.steps(geom, at, n, false);
    let down = t.steps(geom, at, n, true);
    let j = at + 2 * (n - 1);
    if n > 1 {
        moves_start_paths_and_lines_go_on(t, geom, at, (n - 1) as nat);
        let bu = t.steps(geom, at, (n - 1) as nat, false);
        let bd = t.steps(geom, at, (n - 1) as nat, true);
        assert(up == bu.move_by(zigzag_value(geom[j]), zigzag_value(geom[j + 1])));
        assert(up.paths == bu.all_paths());
        assert(up.all_paths() == bu.all_paths().push(up.current));
        assert(up.all_paths().take(t.all_paths().len() as int) =~= bu.all_paths().take(
            t.all_paths().len() as int,
        ));
        assert(down.current.take(t.current.len() as int) =~= bd.current.take(
            t.current.len() as int,
        ));
    } else {
        assert(t.steps(geom, at, 0, false) == t && t.steps(geom, at, 0, true) == t);
        assert(up.all_paths() == t.all_paths().push(up.current));
        assert(up.all_paths().take(t.all_paths().len() as int) =~= t.all_paths());
        assert(down.current.take(t.current.len() as int) =~= t.current);
    }
}

/// Zigzag codes alternate: an even code stands for its half, and the odd code
/// before it for the opposite of that.
pub proof fn zigzag_codes_alternate(k: u32)
    requires
        0 < k < 0x8000_0000,
    ensures
        zigzag_value((2 * k) as u32) == k,
        zigzag_value((2 * k - 1) as u32) == -k,
        zigzag_value(0) == 0,
        zigzag_value(0xffff_ffff) == -0x8000_0000,
{
}

/// A geometry fits exactly if each coordinate of each point of its paths lies from
/// -2^31 to 2^31 - 1.
pub proof fn fitting_coordinates_have_32_bits(geom: Seq<u32>)
    ensures
        geom_fits(geom) <==> forall|k: int, i: int|
            #![trigger geom_paths(geom)[k][i]]
            0 <= k < geom_paths(geom).len() && 0 <= i < geom_paths(geom)[k].len() ==> {
                let (x, y) = geom_paths(geom)[k][i];
                -0x8000_0000 <= x < 0x8000_0000 && -0x8000_0000 <= y < 0x8000_0000
            },
{
    if geom_fits(geom) {
        assert forall|k: int, i: int|
            #![trigger geom_paths(geom)[k][i]]
            0 <= k < geom_paths(geom).len() && 0 <= i < geom_paths(geom)[k].len() implies {
            let (x, y) = geom_paths(geom)[k][i];
            -0x8000_0000 <= x < 0x8000_0000 && -0x8000_0000 <= y < 0x8000_0000
        } by {
            assert(path_fits(geom_paths(geom)[k]));
            assert(spot_fits(geom_paths(geom)[k][i]));
        }
    } else {
        let k = choose|k: int|
            0 <= k < geom_paths(geom).len() && !path_fits(#[trigger] geom_paths(geom)[k]);
        let path = geom_paths(geom)[k];
        let i = choose|i: int| 0 <= i < path.len() && !spot_fits(#[trigger] path[i]);
        let (x, y) = geom_paths(geom)[k][i];
    }
}

} // verus!
