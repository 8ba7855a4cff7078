//! The renderer: flat widths and forced splits bottom-up, then a top-down pass
//! that decides per group between one line and broken lines, and emits text.
use vstd::prelude::*;
use crate::sg::{Seg, Segment, SplitGroup, arena_view, arena_wf, children_below, segs_view};

verus! {

/// `x` capped to the range of `usize`.
pub open spec fn sat(x: int) -> nat {
    if x > usize::MAX {
        usize::MAX as nat
    } else if x < 0 {
        0
    } else {
        x as nat
    }
}

/// `n` spaces.
pub open spec fn spaces(n: nat) -> Seq<char> {
    Seq::new(n, |_k: int| ' ')
}

/// Width of group `i` when it and all its descendants render on one line
/// (always-emitted and flat-only text), capped at `usize::MAX`.
pub open spec fn flat_width(groups: Seq<Seq<Seg>>, i: int) -> nat
    decreases i, groups[i].len() + 1,
{
    if 0 <= i < groups.len() {
        segs_flat_width(groups, i, groups[i].len() as int)
    } else {
        0
    }
}

/// Flat width of the first `n` segments of group `i`.
pub open spec fn segs_flat_width(groups: Seq<Seq<Seg>>, i: int, n: int) -> nat
    decreases i, n,
{
    if n <= 0 || !(0 <= i < groups.len()) || n > groups[i].len() {
        0
    } else {
        let prev = segs_flat_width(groups, i, n - 1);
        match groups[i][n - 1] {
            Seg::Text(t) => sat(prev + t.len() as int),
            Seg::FlatText(t) => sat(prev + t.len() as int),
            Seg::Child(c) => if c < i {
                sat(prev + flat_width(groups, c as int) as int)
            } else {
                prev
            },
            _ => prev,
        }
    }
}

/// Group `i` holds a required break point, itself or in a descendant.
pub open spec fn forces_split(groups: Seq<Seq<Seg>>, i: int) -> bool
    decreases i, groups[i].len() + 1,
{
    0 <= i < groups.len() && segs_force_split(groups, i, groups[i].len() as int)
}

/// One of the first `n` segments of group `i` forces a split.
pub open spec fn segs_force_split(groups: Seq<Seq<Seg>>, i: int, n: int) -> bool
    decreases i, n,
{
    if n <= 0 || !(0 <= i < groups.len()) || n > groups[i].len() {
        false
    } else {
        segs_force_split(groups, i, n - 1) || match groups[i][n - 1] {
            Seg::Break { depth, always } => always,
            Seg::Child(c) => c < i && forces_split(groups, c as int),
            _ => false,
        }
    }
}

/// Whether group `i`, starting at column `col`, renders split: it is forced
/// to, or its flat form would run past `max`.
pub open spec fn splits(groups: Seq<Seq<Seg>>, i: int, col: nat, max: nat) -> bool {
    forces_split(groups, i) || col + flat_width(groups, i) > max
}

/// Text of group `i` rendered from column `col`, and the column after it.
pub open spec fn render_group(groups: Seq<Seq<Seg>>, i: int, col: nat, max: nat) -> (Seq<char>, nat)
    decreases i, groups[i].len() + 1,
{
    if 0 <= i < groups.len() {
        render_segs(groups, i, groups[i].len() as int, splits(groups, i, col, max), col, max)
    } else {
        (Seq::empty(), col)
    }
}

/// Text of the first `n` segments of group `i`, rendered split or flat as
/// `split` says, from column `col`; and the column after it.
pub open spec fn render_segs(
    groups: Seq<Seq<Seg>>,
    i: int,
    n: int,
    split: bool,
    col: nat,
    max: nat,
) -> (Seq<char>, nat)
    decreases i, n,
{
    if n <= 0 || !(0 <= i < groups.len()) || n > groups[i].len() {
        (Seq::empty(), col)
    } else {
        let (t, c) = render_segs(groups, i, n - 1, split, col, max);
        match groups[i][n - 1] {
            Seg::Text(s) => (t + s, sat(c + s.len() as int)),
            Seg::FlatText(s) => if split {
                (t, c)
            } else {
                (t + s, sat(c + s.len() as int))
            },
            Seg::SplitText(s) => if split {
                (t + s, sat(c + s.len() as int))
            } else {
                (t, c)
            },
            Seg::Break { depth, always } => if split {
                (t + seq!['\n'] + spaces(depth), depth)
            } else {
                (t, c)
            },
            Seg::Child(ch) => if ch < i {
                let (u, d) = render_group(groups, ch as int, c, max);
                (t + u, d)
            } else {
                (t, c)
            },
        }
    }
}

/// The text of the arena rendered from `root` at column zero.
pub open spec fn render_text(groups: Seq<Seq<Seg>>, root: int, max: nat) -> Seq<char> {
    render_group(groups, root, 0, max).0
}

/// Flat width and forced split of every group, computed bottom-up.
pub fn measure(groups: &Vec<SplitGroup>) -> (r: (Vec<usize>, Vec<bool>))
    requires
        arena_wf(arena_view(groups@)),
    ensures
        r.0@.len() == groups@.len(),
        r.1@.len() == groups@.len(),
        forall|j: int| 0 <= j < groups@.len() ==> r.0@[j] == flat_width(arena_view(groups@), j),
        forall|j: int| 0 <= j < groups@.len() ==> r.1@[j] == forces_split(arena_view(groups@), j),
{
    let ghost av = arena_view(groups@);
    let mut widths: Vec<usize> = Vec::new();
    let mut forces: Vec<bool> = Vec::new();
    let mut i: usize = 0;
    while i < groups.len()
        invariant
            i <= groups@.len(),
            av == arena_view(groups@),
            arena_wf(av),
            widths@.len() == i,
            forces@.len() == i,
            forall|j: int| 0 <= j < i ==> widths@[j] == flat_width(av, j),
            forall|j: int| 0 <= j < i ==> forces@[j] == forces_split(av, j),
        decreases groups@.len() - i,
    {
        let segs = &groups[i].segs;
        assert(av[i as int] == segs_view(segs@));
        assert(children_below(av[i as int], i as int));
        let mut w: usize = 0;
        let mut f: bool = false;
        let mut k: usize = 0;
        while k < segs.len()
            invariant
                i < groups@.len(),
                k <= segs@.len(),
                segs == &groups@[i as int].segs,
                av == arena_view(groups@),
                av[i as int] == segs_view(segs@),
                children_below(av[i as int], i as int),
                widths@.len() == i,
                forces@.len() == i,
                forall|j: int| 0 <= j < i ==> widths@[j] == flat_width(av, j),
                forall|j: int| 0 <= j < i ==> forces@[j] == forces_split(av, j),
                w == segs_flat_width(av, i as int, k as int),
                f == segs_force_split(av, i as int, k as int),
            decreases segs@.len() - k,
        {
            assert(av[i as int][k as int] == segs@[k as int]@);
            assert(av[i as int].len() == segs@.len());
            match &segs[k] {
                Segment::Text(t) => {
                    assert(av[i as int][k as int] == Seg::Text(t@));
                    w = w.saturating_add(t.as_str().unicode_len());
                },
                Segment::FlatText(t) => {
                    assert(av[i as int][k as int] == Seg::FlatText(t@));
                    w = w.saturating_add(t.as_str().unicode_len());
                },
                Segment::SplitText(t) => {
                    assert(av[i as int][k as int] == Seg::SplitText(t@));
                },
                Segment::Break { align, always } => {
                    assert(av[i as int][k as int] == Seg::Break { depth: align.depth as nat, always: *always });
                    f = f || *always;
                },
                Segment::Child(c) => {
                    let c = *c;
                    assert(av[i as int][k as int] == Seg::Child(c as nat));
                    assert(av[i as int][k as int] matches Seg::Child(cc) ==> cc < i);
                    assert(c < i);
                    assert(widths@[c as int] == flat_width(av, c as int));
                    assert(forces@[c as int] == forces_split(av, c as int));
                    w = w.saturating_add(widths[c]);
                    f = f || forces[c];
                },
            }
            k = k + 1;
        }
        widths.push(w);
        forces.push(f);
        i = i + 1;
    }
    (widths, forces)
}

/// Appends `n` spaces to `out`.
fn push_spaces(out: &mut String, n: usize)
    ensures
        final(out)@ == old(out)@ + spaces(n as nat),
{
    let mut j: usize = 0;
    while j < n
        invariant
            j <= n,
            out@ == old(out)@ + spaces(j as nat),
        decreases n - j,
    {
        proof {
            reveal_strlit(" ");
        }
        out.append(" ");
        assert(spaces((j + 1) as nat) =~= spaces(j as nat).push(' '));
        assert(old(out)@ + spaces((j + 1) as nat) =~= (old(out)@ + spaces(j as nat)) + " "@);
        j = j + 1;
    }
}

/// Renders group `i` from column `col` onto `out`, given the flat widths and
/// forced splits that `measure` computed; returns the column after it.
fn render_rec(
    groups: &Vec<SplitGroup>,
    widths: &Vec<usize>,
    forces: &Vec<bool>,
    i: usize,
    col: usize,
    max: usize,
    out: &mut String,
) -> (c: usize)
    requires
        arena_wf(arena_view(groups@)),
        i < groups@.len(),
        widths@.len() == groups@.len(),
        forces@.len() == groups@.len(),
        forall|j: int| 0 <= j < groups@.len() ==> widths@[j] == flat_width(arena_view(groups@), j),
        forall|j: int| 0 <= j < groups@.len() ==> forces@[j] == forces_split(arena_view(groups@), j),
    ensures
        final(out)@ == old(out)@ + render_group(arena_view(groups@), i as int, col as nat, max as nat).0,
        c == render_group(arena_view(groups@), i as int, col as nat, max as nat).1,
    decreases i,
{
    let ghost av = arena_view(groups@);
    let split = forces[i] || widths[i] > max || col > max - widths[i];
    assert(split == splits(av, i as int, col as nat, max as nat));
    let segs = &groups[i].segs;
    assert(av[i as int] == segs_view(segs@));
    assert(children_below(av[i as int], i as int));
    assert(av[i as int].len() == segs@.len());
    let ghost start = out@;
    let mut cur: usize = col;
    let mut k: usize = 0;
    while k < segs.len()
        invariant
            i < groups@.len(),
            k <= segs@.len(),
            segs == &groups@[i as int].segs,
            av == arena_view(groups@),
            arena_wf(av),
            av[i as int] == segs_view(segs@),
            av[i as int].len() == segs@.len(),
            children_below(av[i as int], i as int),
            widths@.len() == groups@.len(),
            forces@.len() == groups@.len(),
            forall|j: int| 0 <= j < groups@.len() ==> widths@[j] == flat_width(av, j),
            forall|j: int| 0 <= j < groups@.len() ==> forces@[j] == forces_split(av, j),
            out@ == start + render_segs(av, i as int, k as int, split, col as nat, max as nat).0,
            cur == render_segs(av, i as int, k as int, split, col as nat, max as nat).1,
        decreases segs@.len() - k,
    {
        assert(av[i as int][k as int] == segs@[k as int]@);
        match &segs[k] {
            Segment::Text(t) => {
                assert(av[i as int][k as int] == Seg::Text(t@));
                out.append(t.as_str());
                cur = cur.saturating_add(t.as_str().unicode_len());
            },
            Segment::FlatText(t) => {
                assert(av[i as int][k as int] == Seg::FlatText(t@));
                if !split {
                    out.append(t.as_str());
                    cur = cur.saturating_add(t.as_str().unicode_len());
                }
            },
            Segment::SplitText(t) => {
                assert(av[i as int][k as int] == Seg::SplitText(t@));
                if split {
                    out.append(t.as_str());
                    cur = cur.saturating_add(t.as_str().unicode_len());
                }
            },
            Segment::Break { align, always } => {
                assert(av[i as int][k as int] == Seg::Break { depth: align.depth as nat, always: *always });
                if split {
                    proof {
                        reveal_strlit("\n");
                    }
                    out.append("\n");
                    push_spaces(out, align.depth);
                    cur = align.depth;
                }
            },
            Segment::Child(c) => {
                let c = *c;
                assert(av[i as int][k as int] == Seg::Child(c as nat));
                assert(av[i as int][k as int] matches Seg::Child(cc) ==> cc < i);
                assert(c < i);
                cur = render_rec(groups, widths, forces, c, cur, max, out);
            },
        }
        assert(out@ =~= start + render_segs(av, i as int, k + 1, split, col as nat, max as nat).0);
        k = k + 1;
    }
    cur
}

/// Renders the arena from `root` at column zero with lines of at most `max`
/// columns where the layout allows it.
pub fn render(groups: &Vec<SplitGroup>, root: usize, max: usize) -> (r: String)
    requires
        arena_wf(arena_view(groups@)),
        root < groups@.len(),
    ensures
        r@ == render_text(arena_view(groups@), root as int, max as nat),
{
    let (widths, forces) = measure(groups);
    let mut out = String::new();
    render_rec(groups, &widths, &forces, root, 0, max, &mut out);
    assert(out@ =~= render_text(arena_view(groups@), root as int, max as nat));
    out
}

/// A group that renders on one line fits: its text is exactly its flat width
/// long and ends at or before column `max`; and every group directly inside
/// it, at the column where it starts, renders on one line too, so a split
/// never sits below an unsplit ancestor.
pub proof fn lemma_flat_group_fits(groups: Seq<Seq<Seg>>, i: int, col: nat, max: nat)
    requires
        arena_wf(groups),
        0 <= i < groups.len(),
        max < usize::MAX,
        !splits(groups, i, col, max),
    ensures
        render_group(groups, i, col, max).1 == col + flat_width(groups, i),
        render_group(groups, i, col, max).1 <= max,
        render_group(groups, i, col, max).0.len() == flat_width(groups, i),
        forall|k: int|
            0 <= k < groups[i].len() ==> (#[trigger] groups[i][k] matches Seg::Child(c) ==> !splits(
                groups,
                c as int,
                col + segs_flat_width(groups, i, k),
                max,
            )),
    decreases i, groups[i].len() + 1,
{
    lemma_flat_segs_fit(groups, i, groups[i].len() as int, col, max);
    let len = groups[i].len() as int;
    assert forall|k: int|
        0 <= k < len implies (#[trigger] groups[i][k] matches Seg::Child(c) ==> !splits(
            groups,
            c as int,
            col + segs_flat_width(groups, i, k),
            max,
        )) by {
        if let Seg::Child(c) = groups[i][k] {
            assert(children_below(groups[i], i));
            assert(c < i);
            if forces_split(groups, c as int) {
                lemma_forced_child_forces(groups, i, len, k);
            }
            lemma_segs_flat_width_mono(groups, i, k + 1, len);
        }
    }
}

/// Flat width only grows with more segments.
pub proof fn lemma_segs_flat_width_mono(groups: Seq<Seq<Seg>>, i: int, a: int, b: int)
    requires
        0 <= i < groups.len(),
        0 <= a <= b <= groups[i].len(),
    ensures
        segs_flat_width(groups, i, a) <= segs_flat_width(groups, i, b),
    decreases b - a,
{
    if a < b {
        lemma_segs_flat_width_mono(groups, i, a, b - 1);
        lemma_segs_flat_width_bound(groups, i, b - 1);
    }
}

/// Flat widths are capped at `usize::MAX`.
pub proof fn lemma_segs_flat_width_bound(groups: Seq<Seq<Seg>>, i: int, n: int)
    ensures
        segs_flat_width(groups, i, n) <= usize::MAX,
    decreases n,
{
    if n > 0 {
        lemma_segs_flat_width_bound(groups, i, n - 1);
    }
}

/// The first `n` segments of a group that renders on one line fit, as
/// `lemma_flat_group_fits` states of the whole group.
pub proof fn lemma_flat_segs_fit(groups: Seq<Seq<Seg>>, i: int, n: int, col: nat, max: nat)
    requires
        arena_wf(groups),
        0 <= i < groups.len(),
        0 <= n <= groups[i].len(),
        max < usize::MAX,
        !segs_force_split(groups, i, n),
        col + segs_flat_width(groups, i, n) <= max,
    ensures
        render_segs(groups, i, n, false, col, max).1 == col + segs_flat_width(groups, i, n),
        render_segs(groups, i, n, false, col, max).0.len() == segs_flat_width(groups, i, n),
    decreases i, n,
{
    if n > 0 {
        let prev = segs_flat_width(groups, i, n - 1);
        assert(prev <= segs_flat_width(groups, i, n));
        lemma_flat_segs_fit(groups, i, n - 1, col, max);
        match groups[i][n - 1] {
            Seg::Child(c) => {
                assert(children_below(groups[i], i));
                assert(c < i);
                assert(!forces_split(groups, c as int));
                lemma_flat_group_fits(groups, c as int, col + prev, max);
            },
            _ => {},
        }
    }
}

/// A required break among the first `n` segments of a group forces it to split.
pub proof fn lemma_required_break_forces(groups: Seq<Seq<Seg>>, i: int, n: int, k: int)
    requires
        0 <= i < groups.len(),
        0 <= k < n <= groups[i].len(),
        groups[i][k] matches Seg::Break { always: true, .. },
    ensures
        segs_force_split(groups, i, n),
    decreases n,
{
    if k < n - 1 {
        lemma_required_break_forces(groups, i, n - 1, k);
    }
}

/// A group holding a child that is forced to split is forced to split too,
/// and so, step by step, is every group above it.
pub proof fn lemma_forced_child_forces(groups: Seq<Seq<Seg>>, i: int, n: int, k: int)
    requires
        0 <= i < groups.len(),
        0 <= k < n <= groups[i].len(),
        groups[i][k] matches Seg::Child(c) && c < i && forces_split(groups, c as int),
    ensures
        segs_force_split(groups, i, n),
    decreases n,
{
    if k < n - 1 {
        lemma_forced_child_forces(groups, i, n - 1, k);
    }
}

} // verus!
