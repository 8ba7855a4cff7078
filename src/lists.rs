//! List combinators: inline, bracketed and curly-bracketed lists, composed
//! from the builder primitives alone so that every list splits alike.
use vstd::prelude::*;
use crate::sg::{Alignment, INDENT_WIDTH, LineColumn, Seg, SplitGroupBuilder, children_below, lc_lt};
use crate::render::{forces_split, lemma_required_break_forces, splits};
use crate::state::{
    Comment, MakeSegsState, append_comments, comment_segs, place_comments, lemma_children_below_append,
    lemma_comment_segs_no_child, lemma_comment_segs_text, lemma_extends_refl, lemma_extends_trans, new_sg, append_comments_between, between_segs, lemma_between_segs_no_child,
    placed_all, placed_in,
};

verus! {

/// A syntax node that can lay itself out: given an alignment, it builds its
/// segments into the arena and returns the handle of its group.
pub trait Formattable {
    /// `r` is the group that laying `self` out at depth `depth` builds, taking
    /// the state from `before` to `after`.
    spec fn built(&self, before: MakeSegsState, after: MakeSegsState, depth: nat, r: nat) -> bool;

    fn make_segs(&self, out: &mut MakeSegsState, base_indent: &Alignment) -> (r: usize)
        requires
            old(out).wf(),
        ensures
            final(out).extends(old(out)),
            r < final(out).groups@.len(),
            self.built(*old(out), *final(out), base_indent.depth as nat, r as nat),
            placed_all(*old(out), *final(out)),
    ;
}

/// A single token starting at `loc`: comments before it go on lines of their
/// own, then its text.
pub struct Token {
    pub loc: LineColumn,
    pub text: String,
}

impl Formattable for Token {
    /// A new group: the queued comments before `loc`, each on a line of its
    /// own, then the token's text.
    open spec fn built(&self, before: MakeSegsState, after: MakeSegsState, depth: nat, r: nat) -> bool {
        &&& r == before.groups@.len()
        &&& after.arena() == before.arena().push(
            comment_segs(
                before.comments@.subrange(before.next_comment as int, after.next_comment as int),
                depth,
                false,
            ) + seq![Seg::Text(self.text@)],
        )
        &&& forall|j: int|
            before.next_comment <= j < after.next_comment ==> lc_lt(
                #[trigger] before.comments@[j].loc,
                self.loc,
            )
        &&& (after.next_comment == before.comments@.len() || !lc_lt(
            before.comments@[after.next_comment as int].loc,
            self.loc,
        ))
    }

    fn make_segs(&self, out: &mut MakeSegsState, base_indent: &Alignment) -> (r: usize) {
        let mut sg = new_sg(out);
        append_comments(out, base_indent, &mut sg, self.loc);
        proof {
            lemma_comment_segs_no_child(
                out.comments@.subrange(old(out).next_comment as int, out.next_comment as int),
                base_indent.depth as nat,
                false,
                out.groups@.len() as int,
            );
            assert(sg@ =~= comment_segs(
                out.comments@.subrange(old(out).next_comment as int, out.next_comment as int),
                base_indent.depth as nat,
                false,
            ));
        }
        let ghost mid = *out;
        sg.seg(self.text.as_str());
        proof {
            lemma_children_below_append(sg@.drop_last(), seq![sg@.last()], out.groups@.len() as int);
            assert(sg@ =~= sg@.drop_last() + seq![sg@.last()]);
        }
        let r = sg.build(out);
        proof {
            lemma_extends_trans(old(out), &mid, out);
            let cs = out.comments@.subrange(old(out).next_comment as int, out.next_comment as int);
            let g = r as int;
            assert(out.arena()[g] =~= comment_segs(cs, base_indent.depth as nat, false) + seq![Seg::Text(self.text@)]);
            assert forall|j: int| old(out).next_comment <= j < out.next_comment implies #[trigger] placed_in(
                *out,
                old(out).groups@.len() as int,
                out.comments@[j].text@,
            ) by {
                let m = j - old(out).next_comment;
                lemma_comment_segs_text(cs, base_indent.depth as nat, false, m);
                assert(out.arena()[g][2 * m] == Seg::Text(out.comments@[j].text@));
            }
        }
        r
    }
}

/// A list element and the position of the separator that follows it in the
/// source, if there is one.
pub struct ListItem<E> {
    pub value: E,
    pub punct: Option<LineColumn>,
}

/// What follows the last element of a list.
pub enum InlineListSuffix<F> {
    /// Nothing.
    Nothing,
    /// A separator, when the list is split and not empty.
    Punct,
    /// A separator when the list is not empty, then an extra element.
    Extra(F),
}

/// The kind of a list's suffix.
pub enum SuffixKind {
    Nothing,
    Punct,
    Extra,
}

/// The kind of `s`.
pub open spec fn suffix_kind<F>(s: &InlineListSuffix<F>) -> SuffixKind {
    match s {
        InlineListSuffix::Nothing => SuffixKind::Nothing,
        InlineListSuffix::Punct => SuffixKind::Punct,
        InlineListSuffix::Extra(_) => SuffixKind::Extra,
    }
}

/// Elements `hs` separated by `sep`, with an optional break at `depth` before
/// each element but the first (a space when flat); `cs[j]` holds the comments
/// placed before the separator that follows element `j`.
pub open spec fn list_elems(hs: Seq<nat>, cs: Seq<Seq<Seg>>, sep: Seq<char>, depth: nat) -> Seq<Seg>
    decreases hs.len(),
{
    if hs.len() == 0 {
        Seq::empty()
    } else if hs.len() == 1 {
        seq![Seg::Child(hs[0])]
    } else {
        list_elems(hs.drop_last(), cs, sep, depth) + cs[hs.len() - 2] + seq![
            Seg::Text(sep),
            Seg::Break { depth, always: false },
            Seg::FlatText(seq![' ']),
            Seg::Child(hs.last()),
        ]
    }
}

/// What follows `n` elements under a suffix of kind `s` whose extra element,
/// if any, is `x`; `c` holds the comments placed before the trailing
/// separator, and a break at `depth` precedes the extra element.
pub open spec fn suffix_segs(s: SuffixKind, x: nat, n: nat, c: Seq<Seg>, sep: Seq<char>, depth: nat) -> Seq<Seg> {
    match s {
        SuffixKind::Nothing => Seq::empty(),
        SuffixKind::Punct => if n > 0 {
            c + seq![Seg::SplitText(sep)]
        } else {
            Seq::empty()
        },
        SuffixKind::Extra => if n > 0 {
            c + seq![
                Seg::Text(sep),
                Seg::Break { depth, always: false },
                Seg::FlatText(seq![' ']),
                Seg::Child(x),
            ]
        } else {
            seq![Seg::Child(x)]
        },
    }
}

/// `body` is the list `exprs` laid out from state `start`, separated by
/// `sep`, breaking at `depth`, followed by the suffix that `suffix` describes;
/// construction ends in state `end`.
pub open spec fn is_list_body<E: Formattable, F: Formattable>(
    body: Seq<Seg>,
    exprs: Seq<ListItem<E>>,
    sep: Seq<char>,
    depth: nat,
    suffix: &InlineListSuffix<F>,
    start: MakeSegsState,
    end: MakeSegsState,
) -> bool {
    exists|
        hs: Seq<nat>,
        cs: Seq<Seq<Seg>>,
        x: nat,
        pre: Seq<MakeSegsState>,
        post: Seq<MakeSegsState>,
        elems_end: MakeSegsState,
        mid: MakeSegsState,
    | #[trigger] list_full(body, exprs, sep, depth, suffix, start, end, hs, cs, x, pre, post, elems_end, mid)
}

/// The list with element handles `hs`, comment runs `cs` and extra element
/// `x`: the elements take the state from `start` to `elems_end`, the comments
/// before the trailing separator from there to `mid`, the extra element from
/// there to `end`.
pub open spec fn list_full<E: Formattable, F: Formattable>(
    body: Seq<Seg>,
    exprs: Seq<ListItem<E>>,
    sep: Seq<char>,
    depth: nat,
    suffix: &InlineListSuffix<F>,
    start: MakeSegsState,
    end: MakeSegsState,
    hs: Seq<nat>,
    cs: Seq<Seq<Seg>>,
    x: nat,
    pre: Seq<MakeSegsState>,
    post: Seq<MakeSegsState>,
    elems_end: MakeSegsState,
    mid: MakeSegsState,
) -> bool {
    let n = exprs.len();
    &&& list_shape(body, hs, cs, x, n, sep, depth, suffix_kind(suffix))
    &&& elems_trace(exprs, depth, start, elems_end, hs, cs, pre, post)
    &&& n > 0 ==> cs[n - 1] == between_segs(
        start.comments@.subrange(elems_end.next_comment as int, mid.next_comment as int), depth)
    &&& (n == 0 || suffix is Nothing) ==> mid == elems_end
    &&& (n > 0 && !(suffix is Nothing)) ==> takes_before(
        start,
        elems_end.next_comment,
        mid.next_comment,
        exprs[n - 1].punct,
    )
    &&& mid.extends(&elems_end)
    &&& mid.groups@ == elems_end.groups@
    &&& match suffix {
        InlineListSuffix::Extra(e) => e.built(mid, end, depth, x),
        _ => end == mid,
    }
}

/// `body` is the list of elements `hs` with comment runs `cs` and extra
/// element `x`.
pub open spec fn list_shape(
    body: Seq<Seg>,
    hs: Seq<nat>,
    cs: Seq<Seq<Seg>>,
    x: nat,
    n: nat,
    sep: Seq<char>,
    depth: nat,
    suffix: SuffixKind,
) -> bool {
    &&& hs.len() == n
    &&& cs.len() == n
    &&& body == list_elems(hs, cs, sep, depth) + suffix_segs(
        suffix,
        x,
        n,
        if n > 0 { cs[n - 1] } else { Seq::empty() },
        sep,
        depth,
    )
}

proof fn lemma_list_elems_prefix(hs: Seq<nat>, cs1: Seq<Seq<Seg>>, cs2: Seq<Seq<Seg>>, sep: Seq<char>, depth: nat)
    requires
        forall|j: int| 0 <= j < hs.len() - 1 ==> cs1[j] == cs2[j],
    ensures
        list_elems(hs, cs1, sep, depth) == list_elems(hs, cs2, sep, depth),
    decreases hs.len(),
{
    if hs.len() > 1 {
        lemma_list_elems_prefix(hs.drop_last(), cs1, cs2, sep, depth);
    }
}

/// The elements `exprs` were laid out in order from state `start`, ending in
/// `end`: element `j` built group `hs[j]` from state `pre[j]` to `post[j]`, and
/// `cs[j]` places exactly the queued comments taken between element `j` and
/// element `j + 1`.
pub open spec fn elems_trace<E: Formattable>(
    exprs: Seq<ListItem<E>>,
    depth: nat,
    start: MakeSegsState,
    end: MakeSegsState,
    hs: Seq<nat>,
    cs: Seq<Seq<Seg>>,
    pre: Seq<MakeSegsState>,
    post: Seq<MakeSegsState>,
) -> bool {
    let n = exprs.len();
    &&& pre.len() == n
    &&& post.len() == n
    &&& hs.len() == n
    &&& forall|j: int| 0 <= j < n ==> #[trigger] exprs[j].value.built(pre[j], post[j], depth, hs[j])
    &&& forall|j: int|
        0 <= j < n - 1 ==> #[trigger] cs[j] == between_segs(
            start.comments@.subrange(post[j].next_comment as int, pre[j + 1].next_comment as int), depth)
    &&& forall|j: int| 0 <= j < n ==> #[trigger] placed_all(pre[j], post[j])
    &&& forall|j: int| 0 <= j < n - 1 ==> #[trigger] step_ok(exprs, start, pre, post, j)
    &&& n > 0 ==> pre[0] == start
    &&& n > 0 ==> end == post[n - 1]
    &&& n == 0 ==> end == start
}

/// Between element `j` and element `j + 1` only the comments before the
/// separator after element `j` were taken, and nothing else changed: element
/// `j + 1` starts where element `j` and those comments left off.
pub open spec fn step_ok<E: Formattable>(
    exprs: Seq<ListItem<E>>,
    start: MakeSegsState,
    pre: Seq<MakeSegsState>,
    post: Seq<MakeSegsState>,
    j: int,
) -> bool {
    &&& pre[j + 1].extends(&post[j])
    &&& pre[j + 1].groups@ == post[j].groups@
    &&& takes_before(start, post[j].next_comment, pre[j + 1].next_comment, exprs[j].punct)
}

/// The queued comments from index `a` to `b` of `st` are exactly those that
/// start before `target`: all of them do and the next queued one does not.
/// With no target, none is taken.
pub open spec fn takes_before(st: MakeSegsState, a: usize, b: usize, target: Option<LineColumn>) -> bool {
    &&& a <= b <= st.comments@.len()
    &&& match target {
        Some(p) => (forall|j: int| a <= j < b ==> lc_lt(#[trigger] st.comments@[j].loc, p)) && (b
            == st.comments@.len() || !lc_lt(st.comments@[b as int].loc, p)),
        None => a == b,
    }
}

/// Appends the elements of a list with their separators, breaks and the
/// comments before each separator; returns the element handles, the comment
/// runs and the states before and after each element.
#[verifier::rlimit(80)]
fn append_list_elems<E: Formattable>(
    out: &mut MakeSegsState,
    base_indent: &Alignment,
    sg: &mut SplitGroupBuilder,
    punct: &str,
    exprs: &Vec<ListItem<E>>,
) -> (r: Ghost<(Seq<nat>, Seq<Seq<Seg>>, Seq<MakeSegsState>, Seq<MakeSegsState>)>)
    requires
        old(out).wf(),
        children_below(old(sg)@, old(out).groups@.len() as int),
    ensures
        final(out).extends(old(out)),
        children_below(final(sg)@, final(out).groups@.len() as int),
        r@.0.len() == exprs@.len(),
        r@.1.len() == if exprs@.len() > 0 { exprs@.len() - 1 } else { 0 },
        final(sg)@ == old(sg)@ + list_elems(r@.0, r@.1, punct@, base_indent.depth as nat),
        elems_trace(exprs@, base_indent.depth as nat, *old(out), *final(out), r@.0, r@.1, r@.2, r@.3),
{
    let ghost depth = base_indent.depth as nat;
    let ghost sg0 = sg@;
    let ghost mut hs: Seq<nat> = Seq::empty();
    let ghost mut cs: Seq<Seq<Seg>> = Seq::empty();
    let ghost mut pre: Seq<MakeSegsState> = Seq::empty();
    let ghost mut post: Seq<MakeSegsState> = Seq::empty();
    proof {
        lemma_extends_refl(out);
        assert(sg@ =~= sg0 + list_elems(hs, cs, punct@, depth));
    }
    let n = exprs.len();
    let mut i: usize = 0;
    while i < n
        invariant
            n == exprs@.len(),
            i <= n,
            depth == base_indent.depth,
            out.extends(old(out)),
            children_below(sg@, out.groups@.len() as int),
            hs.len() == i,
            cs.len() == if i > 0 { i - 1 } else { 0 },
            sg@ == sg0 + list_elems(hs, cs, punct@, depth),
            out.comments@ == old(out).comments@,
            elems_trace(exprs@.subrange(0, i as int), depth, *old(out), *out, hs, cs, pre, post),
        decreases n - i,
    {
        let ghost a = out.next_comment as int;
        let ghost prev = sg@;
        let ghost out0 = *out;
        let ghost mut run: Seq<Seg> = Seq::empty();
        if i > 0 {
            if let Some(p) = exprs[i - 1].punct {
                append_comments_between(out, base_indent, sg, p);
            } else {
                proof {
                    lemma_extends_refl(out);
                }
            }
            assert(takes_before(*old(out), out0.next_comment, out.next_comment, exprs@[i - 1].punct));
            proof {
                run = between_segs(out.comments@.subrange(a, out.next_comment as int), depth);
                if out.next_comment as int == a {
                    assert(out.comments@.subrange(a, a) =~= Seq::<Comment>::empty());
                    assert(sg@ =~= prev + run);
                }
                assert(sg@ == prev + run);
            }
            sg.seg(punct);
            sg.split(*base_indent);
            sg.seg_unsplit(" ");
            proof {
                reveal_strlit(" ");
                assert(" "@ =~= seq![' ']);
                assert(sg@ =~= prev + run + seq![
                    Seg::Text(punct@),
                    Seg::Break { depth, always: false },
                    Seg::FlatText(seq![' ']),
                ]);
            }
        } else {
            proof {
                lemma_extends_refl(out);
                assert(sg@ =~= prev + run);
            }
        }
        let ghost out1 = *out;
        let h = exprs[i].value.make_segs(out, base_indent);
        sg.child(h);
        proof {
            let pre1 = pre.push(out1);
            let post1 = post.push(*out);
            let hs2 = hs.push(h as nat);
            let cs2 = if i > 0 { cs.push(run) } else { cs };
            let ex = exprs@.subrange(0, i + 1);
            assert(ex.drop_last() =~= exprs@.subrange(0, i as int));
            assert(elems_trace(ex, depth, *old(out), *out, hs2, cs2, pre1, post1)) by {
                assert forall|j: int| 0 <= j < ex.len() implies #[trigger] ex[j].value.built(pre1[j], post1[j], depth, hs2[j]) by {
                    if j < i {
                        assert(exprs@.subrange(0, i as int)[j] == ex[j]);
                    }
                }
                if i > 0 {
                    assert(post[i - 1] == out0);
                    assert(cs2[i - 1] == run);
                }
                assert forall|j: int| 0 <= j < ex.len() implies #[trigger] placed_all(pre1[j], post1[j]) by {
                    if j < i {
                        assert(placed_all(pre[j], post[j]));
                    }
                }
                assert forall|j: int| 0 <= j < ex.len() - 1 implies #[trigger] step_ok(ex, *old(out), pre1, post1, j) by {
                    if j < i - 1 {
                        assert(step_ok(exprs@.subrange(0, i as int), *old(out), pre, post, j));
                        assert(exprs@.subrange(0, i as int)[j] == ex[j]);
                    } else {
                        assert(post[i - 1] == out0);
                        assert(ex[j] == exprs@[i - 1]);
                    }
                }
            }
            pre = pre1;
            post = post1;
            reveal_strlit(" ");
            assert(" "@ =~= seq![' ']);
            lemma_extends_trans(&out0, &out1, out);
            lemma_extends_trans(old(out), &out0, out);
            let n1 = out.groups@.len() as int;
            lemma_between_segs_no_child(out.comments@.subrange(a, out1.next_comment as int), depth, n1);
            let tail = if i > 0 {
                seq![
                    Seg::Text(punct@),
                    Seg::Break { depth, always: false },
                    Seg::FlatText(seq![' ']),
                    Seg::Child(h as nat),
                ]
            } else {
                seq![Seg::Child(h as nat)]
            };
            assert(sg@ =~= prev + run + tail);
            assert(children_below(prev, n1));
            lemma_children_below_append(prev, run, n1);
            lemma_children_below_append(prev + run, tail, n1);
            let hs1 = hs.push(h as nat);
            assert(hs1.drop_last() =~= hs);
            if i > 0 {
                let cs1 = cs.push(run);
                lemma_list_elems_prefix(hs, cs, cs1, punct@, depth);
                assert(list_elems(hs1, cs1, punct@, depth) == list_elems(hs, cs1, punct@, depth) + cs1[i - 1] + tail);
                assert(sg@ =~= sg0 + list_elems(hs1, cs1, punct@, depth));
                cs = cs1;
            } else {
                assert(sg@ =~= sg0 + list_elems(hs1, cs, punct@, depth));
            }
            hs = hs1;
        }
        i = i + 1;
    }
    proof {
        assert(exprs@.subrange(0, n as int) =~= exprs@);
    }
    Ghost((hs, cs, pre, post))
}

/// Lays out `items` inline: `e0<sep> e1<sep> ... en`, with an optional break
/// at `base_indent` before each element but the first, then the suffix. The
/// first element stays on the current line.
#[verifier::rlimit(80)]
pub fn append_inline_list_raw<E: Formattable, F: Formattable>(
    out: &mut MakeSegsState,
    base_indent: &Alignment,
    sg: &mut SplitGroupBuilder,
    punct: &str,
    exprs: &Vec<ListItem<E>>,
    suffix: InlineListSuffix<F>,
)
    requires
        old(out).wf(),
        children_below(old(sg)@, old(out).groups@.len() as int),
    ensures
        final(out).extends(old(out)),
        children_below(final(sg)@, final(out).groups@.len() as int),
        exists|body: Seq<Seg>|
            #[trigger] is_list_body(body, exprs@, punct@, base_indent.depth as nat, &suffix, *old(out), *final(out))
                && final(sg)@ == old(sg)@ + body,
{
    let ghost depth = base_indent.depth as nat;
    let ghost sg0 = sg@;
    let n = exprs.len();
    let r = append_list_elems(out, base_indent, sg, punct, exprs);
    let ghost hs = r@.0;
    let ghost cs = r@.1;
    let ghost kind = suffix_kind(&suffix);
    let ghost pre = sg@;
    let ghost a = out.next_comment as int;
    let ghost out_s = *out;
    let ghost mut x: nat = 0;
    let ghost mut tail: Seq<Seg> = Seq::empty();
    proof {
        reveal_strlit(" ");
        assert(" "@ =~= seq![' ']);
        lemma_extends_refl(out);
    }
    if n > 0 {
        match &suffix {
            InlineListSuffix::Nothing => {},
            _ => {
                if let Some(p) = exprs[n - 1].punct {
                    append_comments_between(out, base_indent, sg, p);
                }
                assert(takes_before(*old(out), out_s.next_comment, out.next_comment, exprs@[n - 1].punct));
            },
        }
    }
    let ghost out_c = *out;
    let ghost post_c = sg@;
    assert(out_c.extends(&out_s));
    match &suffix {
        InlineListSuffix::Nothing => {},
        InlineListSuffix::Punct => {
            if n > 0 {
                sg.seg_split(punct);
                proof {
                    tail = seq![Seg::SplitText(punct@)];
                }
            }
        },
        InlineListSuffix::Extra(e) => {
            if n > 0 {
                sg.seg(punct);
                sg.split(*base_indent);
                sg.seg_unsplit(" ");
                proof {
                    tail = seq![
                        Seg::Text(punct@),
                        Seg::Break { depth, always: false },
                        Seg::FlatText(seq![' ']),
                    ];
                }
            }
            let h = e.make_segs(out, base_indent);
            sg.child(h);
            proof {
                x = h as nat;
                tail = tail.push(Seg::Child(x));
            }
        },
    }
    proof {
        lemma_extends_refl(out);
        lemma_extends_trans(&out_s, &out_c, out);
        lemma_extends_trans(old(out), &out_s, out);
        let n1 = out.groups@.len() as int;
        let run = between_segs(old(out).comments@.subrange(a, out_c.next_comment as int), depth);
        if out_c.next_comment as int == a {
            assert(old(out).comments@.subrange(a, a) =~= Seq::<Comment>::empty());
            assert(post_c =~= pre + run);
        }
        assert(post_c == pre + run);
        assert(sg@ =~= pre + run + tail);
        lemma_between_segs_no_child(old(out).comments@.subrange(a, out_c.next_comment as int), depth, n1);
        assert(children_below(pre, n1));
        assert(children_below(tail, n1));
        lemma_children_below_append(pre, run, n1);
        lemma_children_below_append(pre + run, tail, n1);
        let cs1 = if n > 0 { cs.push(run) } else { cs };
        lemma_list_elems_prefix(hs, cs, cs1, punct@, depth);
        let body = sg@.subrange(sg0.len() as int, sg@.len() as int);
        let sfx = suffix_segs(
            kind,
            x,
            n as nat,
            if n > 0 { cs1[n - 1] } else { Seq::empty() },
            punct@,
            depth,
        );
        assert(sfx =~= run + tail);
        assert(body =~= list_elems(hs, cs1, punct@, depth) + sfx);
        assert(list_shape(body, hs, cs1, x, n as nat, punct@, depth, kind));
        assert(elems_trace(exprs@, depth, *old(out), out_s, hs, cs1, r@.2, r@.3)) by {
            assert forall|j: int| 0 <= j < n - 1 implies #[trigger] cs1[j] == between_segs(
                old(out).comments@.subrange(r@.3[j].next_comment as int, r@.2[j + 1].next_comment as int), depth) by {
                assert(cs1[j] == cs[j]);
            }
        }
        assert(list_full(body, exprs@, punct@, depth, &suffix, *old(out), *out, hs, cs1, x, r@.2, r@.3, out_s, out_c));
        assert(is_list_body(body, exprs@, punct@, depth, &suffix, *old(out), *out));
        assert(sg@ =~= sg0 + body);
    }
}

/// Lays out `exprs` inline after content already on the line: an optional
/// break one level deeper than `base_indent` comes before the first element.
pub fn append_inline_list<E: Formattable, F: Formattable>(
    out: &mut MakeSegsState,
    base_indent: &Alignment,
    sg: &mut SplitGroupBuilder,
    punct: &str,
    exprs: &Vec<ListItem<E>>,
    suffix: InlineListSuffix<F>,
)
    requires
        old(out).wf(),
        children_below(old(sg)@, old(out).groups@.len() as int),
        base_indent.depth + INDENT_WIDTH <= usize::MAX,
    ensures
        final(out).extends(old(out)),
        children_below(final(sg)@, final(out).groups@.len() as int),
        exists|body: Seq<Seg>|
            #[trigger] is_list_body(
                body,
                exprs@,
                punct@,
                (base_indent.depth + INDENT_WIDTH) as nat,
                &suffix,
                *old(out),
                *final(out),
            ) && final(sg)@ == old(sg)@.push(
                Seg::Break { depth: (base_indent.depth + INDENT_WIDTH) as nat, always: false },
            ) + body,
{
    let indent = base_indent.indent();
    sg.split(indent);
    proof {
        lemma_children_below_append(old(sg)@, seq![sg@.last()], old(out).groups@.len() as int);
        assert(sg@ =~= old(sg)@ + seq![sg@.last()]);
    }
    let ghost s1 = sg@;
    append_inline_list_raw(out, &indent, sg, punct, exprs, suffix);
    proof {
        let b = choose|b: Seq<Seg>|
            #[trigger] is_list_body(b, exprs@, punct@, indent.depth as nat, &suffix, *old(out), *out) && sg@ == s1 + b;
        assert(sg@ =~= old(sg)@.push(Seg::Break { depth: indent.depth as nat, always: false }) + b);
        assert(is_list_body(b, exprs@, punct@, (base_indent.depth + INDENT_WIDTH) as nat, &suffix, *old(out), *out));
    }
}

/// The segments of a bracketed list: comments `c1`, the prefix, padding
/// when `pad`, a break one level deeper than `depth` (required when `force`),
/// the list `body`, padding, comments `c2`, a break at `depth`, the suffix.
pub open spec fn bracketed_segs(
    c1: Seq<Seg>,
    prefix: Seq<char>,
    pad: bool,
    force: bool,
    depth: nat,
    body: Seq<Seg>,
    c2: Seq<Seg>,
    suffix: Seq<char>,
) -> Seq<Seg> {
    c1 + seq![Seg::Text(prefix)] + pad_segs(pad) + seq![Seg::Break { depth: (depth + INDENT_WIDTH) as nat, always: force }]
        + body + pad_segs(pad) + c2 + seq![Seg::Break { depth, always: false }, Seg::Text(suffix)]
}

/// `segs` is the bracketed list of `exprs`, separated by commas, laid out
/// from state `start` and ending in state `end`.
pub open spec fn is_bracketed<E: Formattable, F: Formattable>(
    segs: Seq<Seg>,
    prefix: Seq<char>,
    bracket_space: bool,
    force: bool,
    depth: nat,
    exprs: Seq<ListItem<E>>,
    list_suffix: &InlineListSuffix<F>,
    suffix: Seq<char>,
    start: MakeSegsState,
    end: MakeSegsState,
    prefix_start: LineColumn,
    suffix_start: LineColumn,
) -> bool {
    exists|body: Seq<Seg>, s1: MakeSegsState, s2: MakeSegsState|
        #[trigger] bracketed_parts(
            segs,
            body,
            s1,
            s2,
            prefix,
            bracket_space,
            force,
            depth,
            exprs,
            list_suffix,
            suffix,
            start,
            end,
            prefix_start,
            suffix_start,
        )
}

/// `segs` is the bracketed list whose `body` takes the state from `s1` to
/// `s2`: before it the queued comments taken from `start` to `s1`, after it
/// those taken from `s2` to `end`.
pub open spec fn bracketed_parts<E: Formattable, F: Formattable>(
    segs: Seq<Seg>,
    body: Seq<Seg>,
    s1: MakeSegsState,
    s2: MakeSegsState,
    prefix: Seq<char>,
    bracket_space: bool,
    force: bool,
    depth: nat,
    exprs: Seq<ListItem<E>>,
    list_suffix: &InlineListSuffix<F>,
    suffix: Seq<char>,
    start: MakeSegsState,
    end: MakeSegsState,
    prefix_start: LineColumn,
    suffix_start: LineColumn,
) -> bool {
    let c1 = between_segs(
        start.comments@.subrange(start.next_comment as int, s1.next_comment as int), depth);
    let c2 = comment_segs(
        start.comments@.subrange(s2.next_comment as int, end.next_comment as int),
        (depth + INDENT_WIDTH) as nat,
        true,
    );
    &&& s1.groups@ == start.groups@
    &&& end.groups@ == s2.groups@
    &&& takes_before(start, start.next_comment, s1.next_comment, Some(prefix_start))
    &&& takes_before(start, s2.next_comment, end.next_comment, Some(suffix_start))
    &&& is_list_body(body, exprs, seq![','], (depth + INDENT_WIDTH) as nat, list_suffix, s1, s2)
    &&& segs == bracketed_segs(c1, prefix, bracket_space && exprs.len() > 0, force, depth, body, c2, suffix)
}

/// One space when `pad`, else nothing.
pub open spec fn pad_segs(pad: bool) -> Seq<Seg> {
    if pad {
        seq![Seg::FlatText(seq![' '])]
    } else {
        Seq::empty()
    }
}

/// Appends the comments before the prefix, the prefix, padding and the
/// break that opens the list; returns the comment segments.
fn open_bracket(
    out: &mut MakeSegsState,
    base_indent: &Alignment,
    sg: &mut SplitGroupBuilder,
    prefix_start: LineColumn,
    prefix: &str,
    pad: bool,
    force: bool,
) -> (c1: Ghost<Seq<Seg>>)
    requires
        old(out).wf(),
        children_below(old(sg)@, old(out).groups@.len() as int),
        base_indent.depth + INDENT_WIDTH <= usize::MAX,
    ensures
        final(out).extends(old(out)),
        final(out).groups@ == old(out).groups@,
        children_below(final(sg)@, final(out).groups@.len() as int),
        c1@ == between_segs(
            old(out).comments@.subrange(old(out).next_comment as int, final(out).next_comment as int),
            base_indent.depth as nat,
        ),
        takes_before(*old(out), old(out).next_comment, final(out).next_comment, Some(prefix_start)),
        final(sg)@ == old(sg)@ + c1@ + seq![Seg::Text(prefix@)] + pad_segs(pad) + seq![
            Seg::Break { depth: (base_indent.depth + INDENT_WIDTH) as nat, always: force },
        ],
{
    let ghost d = base_indent.depth as nat;
    let ghost s0 = sg@;
    let ghost a1 = out.next_comment as int;
    append_comments_between(out, base_indent, sg, prefix_start);
    let ghost c1 = between_segs(out.comments@.subrange(a1, out.next_comment as int), d);
    proof {
        if out.next_comment as int == a1 {
            assert(out.comments@.subrange(a1, a1) =~= Seq::<Comment>::empty());
        }
        assert(sg@ =~= s0 + c1);
        lemma_between_segs_no_child(out.comments@.subrange(a1, out.next_comment as int), d, out.groups@.len() as int);
        lemma_children_below_append(s0, c1, out.groups@.len() as int);
    }
    let ghost s1 = sg@;
    sg.seg(prefix);
    if pad {
        sg.seg_unsplit(" ");
    }
    let indent = base_indent.indent();
    if force {
        sg.split_always(indent);
    } else {
        sg.split(indent);
    }
    proof {
        reveal_strlit(" ");
        assert(" "@ =~= seq![' ']);
        let mid = seq![Seg::Text(prefix@)] + pad_segs(pad) + seq![Seg::Break { depth: (d + INDENT_WIDTH) as nat, always: force }];
        assert(sg@ =~= s1 + mid);
        lemma_children_below_append(s1, mid, out.groups@.len() as int);
    }
    Ghost(c1)
}

/// Appends padding, the comments before the suffix, the break that closes
/// the list and the suffix; returns the comment segments.
fn close_bracket(
    out: &mut MakeSegsState,
    base_indent: &Alignment,
    indent: &Alignment,
    sg: &mut SplitGroupBuilder,
    pad: bool,
    suffix_start: LineColumn,
    suffix: &str,
) -> (c2: Ghost<Seq<Seg>>)
    requires
        old(out).wf(),
        children_below(old(sg)@, old(out).groups@.len() as int),
    ensures
        final(out).extends(old(out)),
        children_below(final(sg)@, final(out).groups@.len() as int),
        final(out).groups@ == old(out).groups@,
        takes_before(*old(out), old(out).next_comment, final(out).next_comment, Some(suffix_start)),
        c2@ == comment_segs(
            old(out).comments@.subrange(old(out).next_comment as int, final(out).next_comment as int),
            indent.depth as nat,
            true,
        ),
        final(sg)@ == old(sg)@ + pad_segs(pad) + c2@ + seq![
            Seg::Break { depth: base_indent.depth as nat, always: false },
            Seg::Text(suffix@),
        ],
{
    let ghost s0 = sg@;
    if pad {
        sg.seg_unsplit(" ");
    }
    let ghost a2 = out.next_comment as int;
    place_comments(out, indent, sg, suffix_start, true);
    let ghost c2 = comment_segs(out.comments@.subrange(a2, out.next_comment as int), indent.depth as nat, true);
    sg.split(*base_indent);
    sg.seg(suffix);
    proof {
        reveal_strlit(" ");
        assert(" "@ =~= seq![' ']);
        if out.next_comment as int == a2 {
            assert(out.comments@.subrange(a2, a2) =~= Seq::<Comment>::empty());
        }
        let n1 = out.groups@.len() as int;
        let last = seq![Seg::Break { depth: base_indent.depth as nat, always: false }, Seg::Text(suffix@)];
        let tail = pad_segs(pad) + c2 + last;
        assert(sg@ =~= s0 + tail);
        lemma_comment_segs_no_child(out.comments@.subrange(a2, out.next_comment as int), indent.depth as nat, true, n1);
        lemma_children_below_append(pad_segs(pad), c2, n1);
        lemma_children_below_append(pad_segs(pad) + c2, last, n1);
        lemma_children_below_append(s0, tail, n1);
    }
    Ghost(c2)
}

#[verifier::rlimit(40)]
fn append_bracketed_list_forced<E: Formattable, F: Formattable>(
    out: &mut MakeSegsState,
    base_indent: &Alignment,
    sg: &mut SplitGroupBuilder,
    prefix_start: LineColumn,
    prefix: &str,
    bracket_space: bool,
    force: bool,
    exprs: &Vec<ListItem<E>>,
    list_suffix: InlineListSuffix<F>,
    suffix_start: LineColumn,
    suffix: &str,
)
    requires
        old(out).wf(),
        children_below(old(sg)@, old(out).groups@.len() as int),
        base_indent.depth + INDENT_WIDTH <= usize::MAX,
    ensures
        final(out).extends(old(out)),
        children_below(final(sg)@, final(out).groups@.len() as int),
        exists|segs: Seq<Seg>|
            #[trigger] is_bracketed(
                segs,
                prefix@,
                bracket_space,
                force,
                base_indent.depth as nat,
                exprs@,
                &list_suffix,
                suffix@,
                *old(out),
                *final(out),
                prefix_start,
                suffix_start,
            ) && final(sg)@ == old(sg)@ + segs,
{
    let ghost d = base_indent.depth as nat;
    let ghost s0 = sg@;
    let pad = bracket_space && exprs.len() > 0;
    let c1 = open_bracket(out, base_indent, sg, prefix_start, prefix, pad, force);
    let ghost out1 = *out;
    let ghost s2 = sg@;
    let indent = base_indent.indent();
    proof {
        reveal_strlit(",");
        assert(","@ =~= seq![',']);
    }
    append_inline_list_raw(out, &indent, sg, ",", exprs, list_suffix);
    let ghost out3 = *out;
    let ghost s3 = sg@;
    let ghost body = s3.subrange(s2.len() as int, s3.len() as int);
    proof {
        let b = choose|b: Seq<Seg>|
            #[trigger] is_list_body(b, exprs@, ","@, (d + INDENT_WIDTH) as nat, &list_suffix, out1, out3) && s3 == s2 + b;
        assert(body =~= b);
    }
    let c2 = close_bracket(out, base_indent, &indent, sg, pad, suffix_start, suffix);
    proof {
        lemma_extends_trans(old(out), &out1, &out3);
        lemma_extends_trans(old(out), &out3, out);
        let segs = sg@.subrange(s0.len() as int, sg@.len() as int);
        assert(segs =~= bracketed_segs(c1@, prefix@, pad, force, d, body, c2@, suffix@));
        assert(bracketed_parts(segs, body, out1, out3, prefix@, bracket_space, force, d, exprs@, &list_suffix, suffix@, *old(out), *out, prefix_start, suffix_start));
        assert(is_bracketed(segs, prefix@, bracket_space, force, d, exprs@, &list_suffix, suffix@, *old(out), *out, prefix_start, suffix_start));
        assert(sg@ =~= s0 + segs);
    }
}

/// Lays out `exprs` between `prefix` and `suffix`: the comma-separated list
/// one level deeper than `base_indent`, a trailing comma as `list_suffix`
/// says, and with `bracket_space` a space inside each bracket of a non-empty
/// list that stays on one line. Comments before each bracket are placed first.
pub fn append_bracketed_list<E: Formattable, F: Formattable>(
    out: &mut MakeSegsState,
    base_indent: &Alignment,
    sg: &mut SplitGroupBuilder,
    prefix_start: LineColumn,
    prefix: &str,
    bracket_space: bool,
    exprs: &Vec<ListItem<E>>,
    list_suffix: InlineListSuffix<F>,
    suffix_start: LineColumn,
    suffix: &str,
)
    requires
        old(out).wf(),
        children_below(old(sg)@, old(out).groups@.len() as int),
        base_indent.depth + INDENT_WIDTH <= usize::MAX,
    ensures
        final(out).extends(old(out)),
        children_below(final(sg)@, final(out).groups@.len() as int),
        exists|segs: Seq<Seg>|
            #[trigger] is_bracketed(
                segs,
                prefix@,
                bracket_space,
                false,
                base_indent.depth as nat,
                exprs@,
                &list_suffix,
                suffix@,
                *old(out),
                *final(out),
                prefix_start,
                suffix_start,
            ) && final(sg)@ == old(sg)@ + segs,
{
    append_bracketed_list_forced(
        out,
        base_indent,
        sg,
        prefix_start,
        prefix,
        bracket_space,
        false,
        exprs,
        list_suffix,
        suffix_start,
        suffix,
    );
}

/// A bracketed list with no padding and no trailing separator.
pub fn append_bracketed_list_common<E: Formattable>(
    out: &mut MakeSegsState,
    base_indent: &Alignment,
    sg: &mut SplitGroupBuilder,
    prefix_start: LineColumn,
    prefix: &str,
    exprs: &Vec<ListItem<E>>,
    suffix_start: LineColumn,
    suffix: &str,
)
    requires
        old(out).wf(),
        children_below(old(sg)@, old(out).groups@.len() as int),
        base_indent.depth + INDENT_WIDTH <= usize::MAX,
    ensures
        final(out).extends(old(out)),
        children_below(final(sg)@, final(out).groups@.len() as int),
        exists|segs: Seq<Seg>|
            #[trigger] is_bracketed(
                segs,
                prefix@,
                false,
                false,
                base_indent.depth as nat,
                exprs@,
                &InlineListSuffix::<Token>::Nothing,
                suffix@,
                *old(out),
                *final(out),
                prefix_start,
                suffix_start,
            ) && final(sg)@ == old(sg)@ + segs,
{
    append_bracketed_list_forced(
        out,
        base_indent,
        sg,
        prefix_start,
        prefix,
        false,
        false,
        exprs,
        InlineListSuffix::<Token>::Nothing,
        suffix_start,
        suffix,
    );
}

/// Whether a brace-delimited list of `n` elements must split under the
/// configured threshold.
pub open spec fn brace_forced(threshold: Option<usize>, n: nat) -> bool {
    match threshold {
        Some(t) => n >= t,
        None => false,
    }
}

/// The opening of a curly-bracketed list: a space and a brace.
pub open spec fn curly_open() -> Seq<char> {
    seq![' ', '{']
}

/// The closing of a curly-bracketed list.
pub open spec fn curly_close() -> Seq<char> {
    seq!['}']
}

/// The list suffix that an optional extra element gives.
pub open spec fn extra_suffix<F>(extra: Option<F>) -> InlineListSuffix<F> {
    match extra {
        Some(e) => InlineListSuffix::Extra(e),
        None => InlineListSuffix::Nothing,
    }
}

/// A curly-bracketed list ` { a, b }`, padded inside the braces, with an
/// optional extra element after the last; it always splits when the
/// configured brace threshold is reached.
pub fn append_bracketed_list_curly<E: Formattable, F: Formattable>(
    out: &mut MakeSegsState,
    base_indent: &Alignment,
    sg: &mut SplitGroupBuilder,
    prefix_start: LineColumn,
    exprs: &Vec<ListItem<E>>,
    extra: Option<F>,
    suffix_start: LineColumn,
)
    requires
        old(out).wf(),
        children_below(old(sg)@, old(out).groups@.len() as int),
        base_indent.depth + INDENT_WIDTH <= usize::MAX,
    ensures
        final(out).extends(old(out)),
        children_below(final(sg)@, final(out).groups@.len() as int),
        exists|segs: Seq<Seg>|
            #[trigger] is_bracketed(
                segs,
                curly_open(),
                true,
                brace_forced(old(out).config.split_brace_threshold, exprs@.len()),
                base_indent.depth as nat,
                exprs@,
                &extra_suffix(extra),
                curly_close(),
                *old(out),
                *final(out),
                prefix_start,
                suffix_start,
            ) && final(sg)@ == old(sg)@ + segs,
{
    let force = match out.config.split_brace_threshold {
        Some(t) => exprs.len() >= t,
        None => false,
    };
    let list_suffix = match extra {
        Some(e) => InlineListSuffix::Extra(e),
        None => InlineListSuffix::Nothing,
    };
    proof {
        reveal_strlit(" {");
        reveal_strlit("}");
        assert(" {"@ =~= seq![' ', '{']);
        assert("}"@ =~= seq!['}']);
        assert(list_suffix == extra_suffix(extra));
    }
    let ghost s0 = sg@;
    let ghost forced = brace_forced(old(out).config.split_brace_threshold, exprs@.len());
    assert(force == forced);
    append_bracketed_list_forced(
        out,
        base_indent,
        sg,
        prefix_start,
        " {",
        true,
        force,
        exprs,
        list_suffix,
        suffix_start,
        "}",
    );
    proof {
        let segs = choose|segs: Seq<Seg>|
            #[trigger] is_bracketed(segs, " {"@, true, force, base_indent.depth as nat, exprs@, &list_suffix, "}"@, *old(out), *out, prefix_start, suffix_start)
                && sg@ == s0 + segs;
        assert(is_bracketed(segs, curly_open(), true, forced, base_indent.depth as nat, exprs@, &extra_suffix(extra), curly_close(), *old(out), *out, prefix_start, suffix_start));
    }
}

/// A new group holding only a bracketed list; returns its handle, which is
/// newer than every group that existed before.
pub fn new_sg_bracketed_list<E: Formattable, F: Formattable>(
    out: &mut MakeSegsState,
    base_indent: &Alignment,
    prefix_start: LineColumn,
    prefix: &str,
    bracket_space: bool,
    exprs: &Vec<ListItem<E>>,
    list_suffix: InlineListSuffix<F>,
    suffix_start: LineColumn,
    suffix: &str,
) -> (r: usize)
    requires
        old(out).wf(),
        base_indent.depth + INDENT_WIDTH <= usize::MAX,
    ensures
        final(out).extends(old(out)),
        old(out).groups@.len() <= r,
        r + 1 == final(out).groups@.len(),
        exists|mid: MakeSegsState|
            #[trigger] is_bracketed(
                final(out).arena()[r as int],
                prefix@,
                bracket_space,
                false,
                base_indent.depth as nat,
                exprs@,
                &list_suffix,
                suffix@,
                *old(out),
                mid,
                prefix_start,
                suffix_start,
            ) && final(out).arena() == mid.arena().push(final(out).arena()[r as int])
                && final(out).next_comment == mid.next_comment,
{
    let mut sg = new_sg(out);
    append_bracketed_list(
        out,
        base_indent,
        &mut sg,
        prefix_start,
        prefix,
        bracket_space,
        exprs,
        list_suffix,
        suffix_start,
        suffix,
    );
    let ghost mid = *out;
    proof {
        let segs = choose|segs: Seq<Seg>|
            #[trigger] is_bracketed(segs, prefix@, bracket_space, false, base_indent.depth as nat, exprs@, &list_suffix, suffix@, *old(out), mid, prefix_start, suffix_start)
                && sg@ == Seq::<Seg>::empty() + segs;
        assert(sg@ =~= segs);
    }
    let r = sg.build(out);
    proof {
        lemma_extends_trans(old(out), &mid, out);
        assert(is_bracketed(out.arena()[r as int], prefix@, bracket_space, false, base_indent.depth as nat, exprs@, &list_suffix, suffix@, *old(out), mid, prefix_start, suffix_start));
    }
    r
}

/// A new group holding only a bracketed list with no padding and no
/// trailing separator; returns its handle, newer than every group that
/// existed before.
pub fn new_sg_bracketed_list_common<E: Formattable>(
    out: &mut MakeSegsState,
    base_indent: &Alignment,
    prefix_start: LineColumn,
    prefix: &str,
    exprs: &Vec<ListItem<E>>,
    suffix_start: LineColumn,
    suffix: &str,
) -> (r: usize)
    requires
        old(out).wf(),
        base_indent.depth + INDENT_WIDTH <= usize::MAX,
    ensures
        final(out).extends(old(out)),
        old(out).groups@.len() <= r,
        r + 1 == final(out).groups@.len(),
        exists|mid: MakeSegsState|
            #[trigger] is_bracketed(
                final(out).arena()[r as int],
                prefix@,
                false,
                false,
                base_indent.depth as nat,
                exprs@,
                &InlineListSuffix::<Token>::Nothing,
                suffix@,
                *old(out),
                mid,
                prefix_start,
                suffix_start,
            ) && final(out).arena() == mid.arena().push(final(out).arena()[r as int])
                && final(out).next_comment == mid.next_comment,
{
    new_sg_bracketed_list(
        out,
        base_indent,
        prefix_start,
        prefix,
        false,
        exprs,
        InlineListSuffix::<Token>::Nothing,
        suffix_start,
        suffix,
    )
}

/// A brace-delimited list that reaches the configured threshold always
/// splits, one element per line, whatever room the line has left: the
/// threshold overrides the width test.
pub proof fn lemma_threshold_forces_split<E: Formattable, F: Formattable>(
    groups: Seq<Seq<Seg>>,
    i: int,
    threshold: Option<usize>,
    depth: nat,
    exprs: Seq<ListItem<E>>,
    extra: Option<F>,
    start: MakeSegsState,
    end: MakeSegsState,
    prefix_start: LineColumn,
    suffix_start: LineColumn,
    col: nat,
    max: nat,
)
    requires
        0 <= i < groups.len(),
        brace_forced(threshold, exprs.len()),
        is_bracketed(
            groups[i],
            curly_open(),
            true,
            brace_forced(threshold, exprs.len()),
            depth,
            exprs,
            &extra_suffix(extra),
            curly_close(),
            start,
            end,
            prefix_start,
            suffix_start,
        ),
    ensures
        forces_split(groups, i),
        splits(groups, i, col, max),
{
    let (body, s1, s2) = choose|body: Seq<Seg>, s1: MakeSegsState, s2: MakeSegsState|
        #[trigger] bracketed_parts(
            groups[i],
            body,
            s1,
            s2,
            curly_open(),
            true,
            true,
            depth,
            exprs,
            &extra_suffix(extra),
            curly_close(),
            start,
            end,
            prefix_start,
            suffix_start,
        );
    let c1 = between_segs(
        start.comments@.subrange(start.next_comment as int, s1.next_comment as int), depth);
    let k: int = (c1.len() + 1 + pad_segs(exprs.len() > 0).len()) as int;
    assert(groups[i][k] == Seg::Break { depth: (depth + INDENT_WIDTH) as nat, always: true });
    lemma_required_break_forces(groups, i, groups[i].len() as int, k);
}

} // verus!
