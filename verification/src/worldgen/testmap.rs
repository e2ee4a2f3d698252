//! Hand-built grids for exercising behaviour on controlled terrain. The
//! `--test-map` flag selects one by name in place of the procedural world.

use vstd::prelude::*;

verus! {

/// One named controlled map, `width × height` cells.
#[derive(Clone, Copy)]
pub struct TestMap {
    pub name: &'static str,
    pub description: &'static str,
    pub width: usize,
    pub height: usize,
}

/// What world generation paints: the procedural world, or a named test map.
#[derive(Clone, Copy)]
pub enum WorldSource {
    Procedural,
    TestMap(TestMap),
}

impl Default for WorldSource {
    fn default() -> (s: Self)
        ensures
            s is Procedural,
    {
        WorldSource::Procedural
    }
}

// Four 20×10 shrub ovals (gaps 2/8/20), 4 bare columns of margin each side,
// 10 bare rows above and below.
pub const OVAL_HALF_W: usize = 10;
pub const OVAL_HALF_H: usize = 5;
pub const OVAL_GAPS: [usize; 3] = [2, 8, 20];
pub const PAD_X: usize = 4;
pub const PAD_Y: usize = 10;
pub const OVAL_GAPS_W: usize = 4 * (2 * OVAL_HALF_W + 1) + 2 + 8 + 20 + 2 * PAD_X;
pub const OVAL_GAPS_H: usize = (2 * OVAL_HALF_H + 1) + 2 * PAD_Y;

/// The registered maps, in listing order.
pub open spec fn maps_spec() -> Seq<TestMap> {
    seq![
        TestMap {
            name: "oval-gaps",
            description: "Four 20\u{d7}10 shrub ovals in a row over bare ground, gaps of 2/8/20 cells \u{2014} a crossing test over widening bare ground.",
            width: OVAL_GAPS_W,
            height: OVAL_GAPS_H,
        },
    ]
}

/// The registered test maps.
pub fn test_maps() -> (m: Vec<TestMap>)
    ensures
        m@ == maps_spec(),
{
    let mut m: Vec<TestMap> = Vec::new();
    m.push(TestMap {
        name: "oval-gaps",
        description: "Four 20\u{d7}10 shrub ovals in a row over bare ground, gaps of 2/8/20 cells \u{2014} a crossing test over widening bare ground.",
        width: OVAL_GAPS_W,
        height: OVAL_GAPS_H,
    });
    assert(m@ =~= maps_spec());
    m
}

/// Character-wise string equality.
pub fn str_eq(a: &str, b: &str) -> (r: bool)
    ensures
        r == (a@ == b@),
{
    let n = a.unicode_len();
    if n != b.unicode_len() {
        return false;
    }
    let mut i: usize = 0;
    while i < n
        invariant
            n == a@.len(),
            n == b@.len(),
            i <= n,
            a@.take(i as int) == b@.take(i as int),
        decreases n - i,
    {
        if a.get_char(i) != b.get_char(i) {
            return false;
        }
        assert(a@.take(i + 1) =~= a@.take(i as int).push(a@[i as int]));
        assert(b@.take(i + 1) =~= b@.take(i as int).push(b@[i as int]));
        i += 1;
    }
    assert(a@ =~= a@.take(n as int));
    assert(b@ =~= b@.take(n as int));
    true
}

/// The first registered map named `name`.
pub open spec fn find_spec(name: Seq<char>) -> Option<TestMap> {
    first_named(maps_spec(), name)
}

pub open spec fn first_named(maps: Seq<TestMap>, name: Seq<char>) -> Option<TestMap>
    decreases maps.len(),
{
    if maps.len() == 0 {
        None
    } else if maps[0].name@ == name {
        Some(maps[0])
    } else {
        first_named(maps.drop_first(), name)
    }
}

/// Look a registered map up by name.
pub fn find(name: &str) -> (r: Option<TestMap>)
    ensures
        r == find_spec(name@),
{
    let maps = test_maps();
    assert(maps_spec().skip(0) =~= maps_spec());
    let mut i: usize = 0;
    while i < maps.len()
        invariant
            maps@ == maps_spec(),
            i <= maps.len(),
            first_named(maps_spec(), name@) == first_named(maps_spec().skip(i as int), name@),
        decreases maps.len() - i,
    {
        assert(maps_spec().skip(i as int)[0] == maps[i as int]);
        if str_eq(maps[i].name, name) {
            return Some(maps[i]);
        }
        assert(maps_spec().skip(i as int).drop_first() =~= maps_spec().skip(i + 1));
        i += 1;
    }
    assert(maps_spec().skip(i as int) =~= Seq::<TestMap>::empty());
    None
}

/// `parts` joined with `sep` between neighbours.
pub open spec fn join(parts: Seq<Seq<char>>, sep: Seq<char>) -> Seq<char>
    decreases parts.len(),
{
    if parts.len() == 0 {
        Seq::empty()
    } else if parts.len() == 1 {
        parts[0]
    } else {
        join(parts.drop_last(), sep) + sep + parts.last()
    }
}

/// Registered map names, in listing order.
pub open spec fn names_spec() -> Seq<Seq<char>> {
    maps_spec().map_values(|m: TestMap| m.name@)
}

/// The registered map names, comma separated.
pub fn names() -> (s: String)
    ensures
        s@ == join(names_spec(), ", "@),
{
    let maps = test_maps();
    let mut s = String::new();
    let mut i: usize = 0;
    while i < maps.len()
        invariant
            maps@ == maps_spec(),
            i <= maps.len(),
            s@ == join(names_spec().take(i as int), ", "@),
        decreases maps.len() - i,
    {
        let ghost before = s@;
        if i > 0 {
            s.append(", ");
        }
        s.append(maps[i].name);
        proof {
            let t = names_spec().take(i + 1);
            assert(t.drop_last() =~= names_spec().take(i as int));
            assert(t.last() == maps[i as int].name@);
            if i == 0 {
                assert(names_spec().take(0) =~= Seq::<Seq<char>>::empty());
                assert(s@ =~= maps[i as int].name@);
            } else {
                assert(s@ =~= before + ", "@ + maps[i as int].name@);
            }
        }
        i += 1;
    }
    assert(names_spec().take(maps.len() as int) =~= names_spec());
    s
}

pub uninterp spec fn debug_text(s: Seq<char>) -> Seq<char>;

/// `format!("{:?}", s)`: the `Debug` rendering of a string, quoted with
/// special characters escaped. The text is named, not spelled out.
#[verifier::external_body]
fn debug_quoted(s: &str) -> (r: String)
    ensures
        r@ == debug_text(s@),
{
    format!("{:?}", s)
}

/// `p` is a prefix of `s`.
pub open spec fn has_prefix(s: Seq<char>, p: Seq<char>) -> bool {
    p.len() <= s.len() && s.take(p.len() as int) == p
}

/// Whether `s` starts with `p`.
pub fn starts_with(s: &str, p: &str) -> (r: bool)
    ensures
        r == has_prefix(s@, p@),
{
    let n = p.unicode_len();
    if n > s.unicode_len() {
        return false;
    }
    let mut i: usize = 0;
    while i < n
        invariant
            n == p@.len(),
            n <= s@.len(),
            i <= n,
            s@.take(i as int) == p@.take(i as int),
        decreases n - i,
    {
        if s.get_char(i) != p.get_char(i) {
            assert(s@.take(n as int)[i as int] != p@[i as int]);
            return false;
        }
        assert(s@.take(i + 1) =~= s@.take(i as int).push(s@[i as int]));
        assert(p@.take(i + 1) =~= p@.take(i as int).push(p@[i as int]));
        i += 1;
    }
    assert(p@ =~= p@.take(n as int));
    true
}

/// The error for a `--test-map` flag with no name after it.
pub open spec fn needs_name_msg() -> Seq<char> {
    "--test-map needs a name (one of: "@ + join(names_spec(), ", "@) + ")"@
}

/// The error for a name no test map is registered under.
pub open spec fn unknown_msg(name: Seq<char>) -> Seq<char> {
    "unknown test map "@ + debug_text(name) + " (one of: "@ + join(names_spec(), ", "@) + ")"@
}

/// The source a `--test-map` name selects.
pub open spec fn lookup_spec(name: Seq<char>) -> Result<WorldSource, Seq<char>> {
    match find_spec(name) {
        Some(m) => Ok(WorldSource::TestMap(m)),
        None => Err(unknown_msg(name)),
    }
}

/// The source selected by the first `--test-map <name>` or `--test-map=<name>`
/// among `args[i..]`; the procedural world when none appears.
pub open spec fn source_spec(args: Seq<Seq<char>>, i: int) -> Result<WorldSource, Seq<char>>
    decreases args.len() - i,
{
    if i < 0 || i >= args.len() {
        Ok(WorldSource::Procedural)
    } else if has_prefix(args[i], "--test-map="@) {
        lookup_spec(args[i].skip(11))
    } else if args[i] == "--test-map"@ {
        if i + 1 < args.len() {
            lookup_spec(args[i + 1])
        } else {
            Err(needs_name_msg())
        }
    } else {
        source_spec(args, i + 1)
    }
}

fn lookup(name: &str) -> (r: Result<WorldSource, String>)
    ensures
        match r {
            Ok(w) => lookup_spec(name@) == Ok::<WorldSource, Seq<char>>(w),
            Err(e) => lookup_spec(name@) == Err::<WorldSource, Seq<char>>(e@),
        },
{
    match find(name) {
        Some(m) => Ok(WorldSource::TestMap(m)),
        None => {
            let mut e = String::new();
            e.append("unknown test map ");
            let q = debug_quoted(name);
            e.append(q.as_str());
            e.append(" (one of: ");
            let all = names();
            e.append(all.as_str());
            e.append(")");
            Err(e)
        },
    }
}

/// The views of the arguments.
pub open spec fn arg_views(args: Seq<String>) -> Seq<Seq<char>> {
    args.map_values(|a: String| a@)
}

/// Resolve `--test-map <name>` / `--test-map=<name>` from command-line arguments
/// into a `WorldSource`. No flag selects the procedural world; an unknown or
/// missing name is an error that lists the registered maps.
pub fn source_from_args(args: Vec<String>) -> (r: Result<WorldSource, String>)
    ensures
        match r {
            Ok(w) => source_spec(arg_views(args@), 0) == Ok::<WorldSource, Seq<char>>(w),
            Err(e) => source_spec(arg_views(args@), 0) == Err::<WorldSource, Seq<char>>(e@),
        },
{
    let ghost views = arg_views(args@);
    proof {
        reveal_strlit("--test-map=");
    }
    let mut i: usize = 0;
    while i < args.len()
        invariant
            views == arg_views(args@),
            i <= args.len(),
            source_spec(views, 0) == source_spec(views, i as int),
        decreases args.len() - i,
    {
        proof {
            reveal_strlit("--test-map=");
        }
        let a = args[i].as_str();
        assert(views[i as int] == a@);
        if starts_with(a, "--test-map=") {
            let len = a.unicode_len();
            let name = a.substring_char(11, len);
            assert(name@ =~= views[i as int].skip(11));
            return lookup(name);
        } else if str_eq(a, "--test-map") {
            if i + 1 < args.len() {
                assert(views[i + 1] == args[i + 1]@);
                return lookup(args[i + 1].as_str());
            } else {
                let mut e = String::new();
                e.append("--test-map needs a name (one of: ");
                let all = names();
                e.append(all.as_str());
                e.append(")");
                return Err(e);
            }
        }
        i += 1;
    }
    Ok(WorldSource::Procedural)
}

/// The bare columns between ovals, added up.
pub open spec fn gap_sum(gaps: Seq<usize>) -> int
    decreases gaps.len(),
{
    if gaps.len() == 0 {
        0
    } else {
        gap_sum(gaps.drop_last()) + gaps.last()
    }
}

/// Columns a row of ovals of half-width `hw` spans with `gaps` between them:
/// each oval paints `2·hw + 1` columns across its centre row.
pub open spec fn row_span(hw: int, gaps: Seq<usize>) -> int {
    (gaps.len() + 1) * (2 * hw + 1) + gap_sum(gaps)
}

/// Centre column of the `k`-th oval of a row centred in `width` columns
/// (flush left when the row is wider than the grid).
pub open spec fn oval_centre(width: int, hw: int, gaps: Seq<usize>, k: int) -> int {
    let lead = if width > row_span(hw, gaps) { (width - row_span(hw, gaps)) / 2 } else { 0 };
    lead + hw + k * (2 * hw + 1) + gap_sum(gaps.take(k))
}

proof fn lemma_gap_sum_step(gaps: Seq<usize>, k: int)
    requires
        0 <= k < gaps.len(),
    ensures
        gap_sum(gaps.take(k + 1)) == gap_sum(gaps.take(k)) + gaps[k],
        0 <= gap_sum(gaps.take(k)) <= gap_sum(gaps.take(k + 1)),
{
    assert(gaps.take(k + 1).drop_last() =~= gaps.take(k));
    lemma_gap_sum_nonneg(gaps.take(k));
}

proof fn lemma_gap_sum_prefixes(gaps: Seq<usize>)
    ensures
        forall|k: int| 0 <= k <= gaps.len() ==> gap_sum(#[trigger] gaps.take(k)) <= gap_sum(gaps),
    decreases gaps.len(),
{
    if gaps.len() > 0 {
        let rest = gaps.drop_last();
        lemma_gap_sum_prefixes(rest);
        assert forall|k: int| 0 <= k <= gaps.len() implies gap_sum(#[trigger] gaps.take(k)) <= gap_sum(gaps) by {
            if k < gaps.len() {
                assert(gaps.take(k) =~= rest.take(k));
            } else {
                assert(gaps.take(k) =~= gaps);
            }
        }
    }
}

proof fn lemma_gap_sum_nonneg(gaps: Seq<usize>)
    ensures
        gap_sum(gaps) >= 0,
    decreases gaps.len(),
{
    if gaps.len() > 0 {
        lemma_gap_sum_nonneg(gaps.drop_last());
    }
}

/// The centre columns of a row of equal ovals of half-width `hw`, centred in
/// `width` columns and separated left to right by `gaps` bare columns: one
/// oval more than there are gaps.
pub fn oval_row_centres(width: usize, hw: usize, gaps: &[usize]) -> (cols: Vec<usize>)
    requires
        width + hw + row_span(hw as int, gaps@) <= usize::MAX,
    ensures
        cols.len() == gaps.len() + 1,
        forall|k: int| 0 <= k < cols.len() ==> #[trigger] cols[k] == oval_centre(width as int, hw as int, gaps@, k),
{
    let ghost g = gaps@;
    let ghost span = row_span(hw as int, g);
    proof {
        lemma_gap_sum_nonneg(g);
        lemma_gap_sum_prefixes(g);
        let c = g.len() + 1;
        let o = 2 * hw + 1;
        assert(c <= c * o && o <= c * o) by (nonlinear_arith)
            requires c >= 1, o >= 1;
    }
    let count = gaps.len() + 1;
    let oval_w = 2 * hw + 1;
    proof {
        assert(count * oval_w <= span);
        assert(0 <= count * oval_w) by (nonlinear_arith)
            requires count >= 0, oval_w >= 0;
    }
    let mut total: usize = 0;
    let mut i: usize = 0;
    while i < gaps.len()
        invariant
            g == gaps@,
            i <= gaps.len(),
            total == gap_sum(g.take(i as int)),
            gap_sum(g) <= span,
            span + width + hw <= usize::MAX,
            forall|k: int| 0 <= k <= g.len() ==> gap_sum(#[trigger] g.take(k)) <= gap_sum(g),
        decreases gaps.len() - i,
    {
        proof {
            lemma_gap_sum_step(g, i as int);
        }
        total = total + gaps[i];
        i += 1;
    }
    proof {
        assert(g.take(g.len() as int) =~= g);
    }
    let row = count * oval_w + total;
    let lead = width.saturating_sub(row) / 2;
    let mut col = lead + hw;
    let mut cols: Vec<usize> = Vec::new();
    let mut n: usize = 0;
    while n < count
        invariant
            g == gaps@,
            count == g.len() + 1,
            oval_w == 2 * hw + 1,
            row == span,
            span == row_span(hw as int, g),
            span + width + hw <= usize::MAX,
            lead == (if width > span { (width - span) / 2 } else { 0 }),
            n <= count,
            cols.len() == n,
            n < count ==> col == lead + hw + n * oval_w + gap_sum(g.take(n as int)),
            forall|k: int| 0 <= k < n ==> #[trigger] cols[k] == oval_centre(width as int, hw as int, g, k),
            forall|k: int| 0 <= k <= g.len() ==> gap_sum(#[trigger] g.take(k)) <= gap_sum(g),
        decreases count - n,
    {
        proof {
            assert(n * oval_w + oval_w == (n + 1) * oval_w) by (nonlinear_arith);
            assert((n + 1) * oval_w <= count * oval_w) by (nonlinear_arith)
                requires n + 1 <= count, oval_w >= 0;
            if n < g.len() {
                lemma_gap_sum_step(g, n as int);
            }
            assert(g.take(g.len() as int) =~= g);
        }
        cols.push(col);
        if n + 1 < count {
            col = col + oval_w;
            if n < gaps.len() {
                col = col + gaps[n];
            }
        }
        n += 1;
    }
    cols
}

/// Consecutive ovals of a row leave exactly their gap bare between them: from
/// the right edge of the `k`-th oval's centre row to the left edge of the
/// next, `gaps[k]` columns go unpainted.
pub proof fn lemma_oval_row_gaps(width: int, hw: int, gaps: Seq<usize>, k: int)
    requires
        hw >= 0,
        0 <= k < gaps.len(),
    ensures
        (oval_centre(width, hw, gaps, k + 1) - hw) - (oval_centre(width, hw, gaps, k) + hw) - 1 == gaps[k],
{
    lemma_gap_sum_step(gaps, k);
    assert((k + 1) * (2 * hw + 1) == k * (2 * hw + 1) + 2 * hw + 1) by (nonlinear_arith);
}

} // verus!
