//! Per-run state: configuration, the arena of split groups, and the queue of
//! comments still to be placed.
use vstd::prelude::*;
use crate::sg::{
    Alignment, LineColumn, Seg, SplitGroup, SplitGroupBuilder, arena_view, arena_wf,
    children_below, lc_lt,
};
use crate::render::{forces_split, lemma_required_break_forces, render, render_text};

verus! {

/// Configuration of one formatting run.
pub struct FormatConfig {
    /// Lines should not run past this column.
    pub max_width: usize,
    /// A split anywhere forces its ancestors to split. Top-down rendering
    /// already guarantees this: a group on one line keeps every group directly
    /// inside it on one line (`lemma_flat_group_fits`), and so on downwards.
    pub root_splits: bool,
    /// Brace-delimited groups with at least this many children always split.
    pub split_brace_threshold: Option<usize>,
    /// Attribute groups always split.
    pub split_attributes: bool,
    /// Where-clause groups always split.
    pub split_where: bool,
    /// Width of long comments, measured from where the comment starts.
    pub comment_width: Option<usize>,
    /// A comment that cannot be placed fails the run.
    pub comment_errors_fatal: bool,
    /// Only the presentation around the engine reads this.
    pub quiet: bool,
}

impl Default for FormatConfig {
    fn default() -> (r: FormatConfig)
        ensures
            r.max_width == 120,
            !r.root_splits,
            r.split_brace_threshold == Some(1usize),
            r.split_attributes,
            r.split_where,
            r.comment_width == Some(80usize),
            !r.comment_errors_fatal,
            !r.quiet,
    {
        FormatConfig {
            max_width: 120,
            root_splits: false,
            split_brace_threshold: Some(1),
            split_attributes: true,
            split_where: true,
            comment_width: Some(80),
            comment_errors_fatal: false,
            quiet: false,
        }
    }
}

/// A comment of the source: where it starts and its text.
pub struct Comment {
    pub loc: LineColumn,
    pub text: String,
}

impl Comment {
    /// A copy of the comment.
    pub fn duplicate(&self) -> (r: Comment)
        ensures
            r == *self,
    {
        Comment { loc: self.loc, text: self.text.clone() }
    }
}

/// The segments that place comments `cs`, each on a line of its own at depth
/// `depth`: its text then a required break, or, when `closing` (the comments
/// come right before a closing break), a required break then its text.
pub open spec fn comment_segs(cs: Seq<Comment>, depth: nat, closing: bool) -> Seq<Seg>
    decreases cs.len(),
{
    if cs.len() == 0 {
        Seq::empty()
    } else if closing {
        comment_segs(cs.drop_last(), depth, closing) + seq![
            Seg::Break { depth, always: true },
            Seg::Text(cs.last().text@),
        ]
    } else {
        comment_segs(cs.drop_last(), depth, closing) + seq![
            Seg::Text(cs.last().text@),
            Seg::Break { depth, always: true },
        ]
    }
}

/// The result of a run: the text, and the comments that could not be placed,
/// in source order.
pub struct FormatResult {
    pub rendered: String,
    pub lost_comments: Vec<Comment>,
}

/// Why a run produced no text.
pub enum FormatError {
    /// Comments could not be placed and the configuration makes that fatal.
    CommentsLost(Vec<Comment>),
}

/// The state threaded through segment construction.
pub struct MakeSegsState {
    pub config: FormatConfig,
    pub groups: Vec<SplitGroup>,
    /// All comments of the source, in source order.
    pub comments: Vec<Comment>,
    /// Comments before this index have been placed.
    pub next_comment: usize,
}

impl MakeSegsState {
    /// The arena as a sequence of segment sequences.
    pub open spec fn arena(&self) -> Seq<Seq<Seg>> {
        arena_view(self.groups@)
    }

    /// Every group refers only to earlier groups, and the queue position is
    /// within the comments.
    pub open spec fn wf(&self) -> bool {
        arena_wf(self.arena()) && self.next_comment <= self.comments@.len()
    }

    /// `self` is `prev` after more construction: groups were only added,
    /// comments only consumed, configuration left as it was.
    pub open spec fn extends(&self, prev: &MakeSegsState) -> bool {
        &&& self.wf()
        &&& self.config == prev.config
        &&& self.comments@ == prev.comments@
        &&& prev.next_comment <= self.next_comment
        &&& prev.groups@.len() <= self.groups@.len()
        &&& self.arena().subrange(0, prev.groups@.len() as int) == prev.arena()
    }

    /// A fresh state for one run over `comments`, taken in source order.
    pub fn new(config: FormatConfig, comments: Vec<Comment>) -> (r: MakeSegsState)
        ensures
            r.wf(),
            r.config == config,
            r.comments@ == comments@,
            r.next_comment == 0,
            r.groups@.len() == 0,
    {
        let r = MakeSegsState { config, groups: Vec::new(), comments, next_comment: 0 };
        assert(r.arena() =~= Seq::<Seq<Seg>>::empty());
        r
    }
}

/// Starts a new split group.
pub fn new_sg(out: &MakeSegsState) -> (r: SplitGroupBuilder)
    ensures
        r@ == Seq::<Seg>::empty(),
{
    SplitGroupBuilder::new()
}

impl SplitGroupBuilder {
    /// Moves the group into the arena and returns its handle.
    pub fn build(self, out: &mut MakeSegsState) -> (r: usize)
        requires
            old(out).wf(),
            children_below(self@, old(out).groups@.len() as int),
        ensures
            final(out).extends(old(out)),
            final(out).next_comment == old(out).next_comment,
            final(out).arena() == old(out).arena().push(self@),
            final(out).groups@.len() == old(out).groups@.len() + 1,
            r == old(out).groups@.len(),
    {
        let ghost s = self@;
        let r = out.groups.len();
        out.groups.push(SplitGroup { segs: self.segs });
        assert(out.arena() =~= old(out).arena().push(s));
        assert(out.arena().subrange(0, r as int) =~= old(out).arena());
        r
    }
}

/// Places, before whatever `sg` gets next, every queued comment that starts
/// before `target`, each on a line of its own at `align`.
pub fn append_comments(
    out: &mut MakeSegsState,
    align: &Alignment,
    sg: &mut SplitGroupBuilder,
    target: LineColumn,
)
    requires
        old(out).wf(),
    ensures
        final(out).extends(old(out)),
        final(out).groups@ == old(out).groups@,
        forall|j: int|
            old(out).next_comment <= j < final(out).next_comment ==> lc_lt(
                #[trigger] old(out).comments@[j].loc,
                target,
            ),
        final(out).next_comment == old(out).comments@.len() || !lc_lt(
            old(out).comments@[final(out).next_comment as int].loc,
            target,
        ),
        final(sg)@ == old(sg)@ + comment_segs(
            old(out).comments@.subrange(old(out).next_comment as int, final(out).next_comment as int),
            align.depth as nat,
            false,
        ),
{
    place_comments(out, align, sg, target, false);
}

/// Places every queued comment that starts before `target`, each on a line
/// of its own at `align`, laid out as `comment_segs` says for `closing`.
pub fn place_comments(
    out: &mut MakeSegsState,
    align: &Alignment,
    sg: &mut SplitGroupBuilder,
    target: LineColumn,
    closing: bool,
)
    requires
        old(out).wf(),
    ensures
        final(out).extends(old(out)),
        final(out).groups@ == old(out).groups@,
        forall|j: int|
            old(out).next_comment <= j < final(out).next_comment ==> lc_lt(
                #[trigger] old(out).comments@[j].loc,
                target,
            ),
        final(out).next_comment == old(out).comments@.len() || !lc_lt(
            old(out).comments@[final(out).next_comment as int].loc,
            target,
        ),
        final(sg)@ == old(sg)@ + comment_segs(
            old(out).comments@.subrange(old(out).next_comment as int, final(out).next_comment as int),
            align.depth as nat,
            closing,
        ),
{
    let ghost start = out.next_comment as int;
    let ghost segs0 = sg@;
    assert(out.arena().subrange(0, out.groups@.len() as int) =~= out.arena());
    assert(out.comments@.subrange(start, start) =~= Seq::<Comment>::empty());
    assert(sg@ =~= segs0 + comment_segs(Seq::<Comment>::empty(), align.depth as nat, closing));
    while out.next_comment < out.comments.len() && out.comments[out.next_comment].loc.before(&target)
        invariant
            out.extends(old(out)),
            out.groups@ == old(out).groups@,
            start == old(out).next_comment,
            forall|j: int| start <= j < out.next_comment ==> lc_lt(#[trigger] out.comments@[j].loc, target),
            sg@ == segs0 + comment_segs(
                out.comments@.subrange(start, out.next_comment as int),
                align.depth as nat,
                closing,
            ),
        decreases out.comments@.len() - out.next_comment,
    {
        let n = out.next_comment;
        let text = out.comments[n].text.clone();
        if closing {
            sg.split_always(*align);
            sg.seg(text.as_str());
        } else {
            sg.seg(text.as_str());
            sg.split_always(*align);
        }
        out.next_comment = n + 1;
        let ghost cs = out.comments@.subrange(start, n + 1);
        assert(cs.drop_last() =~= out.comments@.subrange(start, n as int));
        assert(sg@ =~= segs0 + comment_segs(cs, align.depth as nat, closing));
    }
}

impl MakeSegsState {
    /// Ends the run: renders the arena from `root` and hands back the comments
    /// that were never placed, or fails if the configuration makes them fatal.
    pub fn finish(self, root: usize) -> (r: Result<FormatResult, FormatError>)
        requires
            self.wf(),
            root < self.groups@.len(),
        ensures
            ({
                let rest = self.comments@.subrange(self.next_comment as int, self.comments@.len() as int);
                match r {
                    Ok(res) => {
                        &&& res.rendered@ == render_text(self.arena(), root as int, self.config.max_width as nat)
                        &&& res.lost_comments@ == rest
                        &&& (self.config.comment_errors_fatal ==> rest.len() == 0)
                    },
                    Err(FormatError::CommentsLost(lost)) => {
                        &&& self.config.comment_errors_fatal
                        &&& rest.len() > 0
                        &&& lost@ == rest
                    },
                }
            }),
    {
        let MakeSegsState { config, groups, comments, next_comment } = self;
        let mut lost: Vec<Comment> = Vec::new();
        let mut k: usize = next_comment;
        while k < comments.len()
            invariant
                next_comment <= k <= comments@.len(),
                lost@ == comments@.subrange(next_comment as int, k as int),
            decreases comments@.len() - k,
        {
            lost.push(comments[k].duplicate());
            assert(lost@ =~= comments@.subrange(next_comment as int, k + 1));
            k = k + 1;
        }
        if config.comment_errors_fatal && lost.len() > 0 {
            return Err(FormatError::CommentsLost(lost));
        }
        let rendered = render(&groups, root, config.max_width);
        Ok(FormatResult { rendered, lost_comments: lost })
    }
}

/// A well-formed state extends itself.
pub proof fn lemma_extends_refl(a: &MakeSegsState)
    requires
        a.wf(),
    ensures
        a.extends(a),
{
    assert(a.arena().subrange(0, a.groups@.len() as int) =~= a.arena());
}

/// Construction steps compose: `c` after `b` after `a` is `c` after `a`.
pub proof fn lemma_extends_trans(a: &MakeSegsState, b: &MakeSegsState, c: &MakeSegsState)
    requires
        b.extends(a),
        c.extends(b),
    ensures
        c.extends(a),
{
    assert(c.arena().subrange(0, a.groups@.len() as int) =~= b.arena().subrange(
        0,
        a.groups@.len() as int,
    ));
}

/// Comment segments hold no child group.
pub proof fn lemma_comment_segs_no_child(cs: Seq<Comment>, depth: nat, closing: bool, n: int)
    ensures
        children_below(comment_segs(cs, depth, closing), n),
    decreases cs.len(),
{
    if cs.len() > 0 {
        lemma_comment_segs_no_child(cs.drop_last(), depth, closing, n);
        lemma_children_below_append(
            comment_segs(cs.drop_last(), depth, closing),
            comment_segs(cs, depth, closing).subrange(
                comment_segs(cs.drop_last(), depth, closing).len() as int,
                comment_segs(cs, depth, closing).len() as int,
            ),
            n,
        );
        assert(comment_segs(cs, depth, closing) =~= comment_segs(cs.drop_last(), depth, closing)
            + comment_segs(cs, depth, closing).subrange(
            comment_segs(cs.drop_last(), depth, closing).len() as int,
            comment_segs(cs, depth, closing).len() as int,
        ));
    }
}

/// Two sequences whose children are below `n` concatenate into one.
pub proof fn lemma_children_below_append(a: Seq<Seg>, b: Seq<Seg>, n: int)
    requires
        children_below(a, n),
        children_below(b, n),
    ensures
        children_below(a + b, n),
{
    assert forall|k: int| 0 <= k < (a + b).len() implies ((#[trigger] (a + b)[k]) matches Seg::Child(c) ==> c < n) by {
        if k < a.len() {
            assert((a + b)[k] == a[k]);
        } else {
            assert((a + b)[k] == b[k - a.len()]);
        }
    }
}

/// The comments taken from the queue (before its position) and the ones
/// `finish` hands back as lost are, in order, exactly the input comments, so
/// their counts add up. That each taken comment was placed is stated where
/// it is taken: by `append_comments`, `place_comments`, `placed_all` for a
/// node's `make_segs`, and the list contracts.
pub proof fn lemma_comments_accounted(s: &MakeSegsState, lost: Seq<Comment>)
    requires
        s.wf(),
        lost == s.comments@.subrange(s.next_comment as int, s.comments@.len() as int),
    ensures
        s.comments@.subrange(0, s.next_comment as int) + lost == s.comments@,
        s.next_comment + lost.len() == s.comments@.len(),
{
    assert(s.comments@.subrange(0, s.next_comment as int) + lost =~= s.comments@);
}

/// A group into which at least one comment was placed is forced to split:
/// each comment sits on a line of its own.
pub proof fn lemma_comment_forces_split(
    groups: Seq<Seq<Seg>>,
    i: int,
    k: int,
    cs: Seq<Comment>,
    depth: nat,
    closing: bool,
)
    requires
        0 <= i < groups.len(),
        cs.len() > 0,
        0 <= k,
        k + comment_segs(cs, depth, closing).len() <= groups[i].len(),
        groups[i].subrange(k, k + comment_segs(cs, depth, closing).len()) == comment_segs(cs, depth, closing),
    ensures
        forces_split(groups, i),
{
    let all = comment_segs(cs, depth, closing);
    let head = comment_segs(cs.drop_last(), depth, closing);
    let j: int = if closing { head.len() as int } else { head.len() + 1 as int };
    assert(all.len() == head.len() + 2);
    assert(all[j] == Seg::Break { depth, always: true });
    assert(groups[i][k + j] == all[j]);
    lemma_required_break_forces(groups, i, groups[i].len() as int, k + j);
}

/// Every comment that construction from `before` to `after` took from the
/// queue stands as text in one of the groups it built.
pub open spec fn placed_all(before: MakeSegsState, after: MakeSegsState) -> bool {
    forall|j: int|
        before.next_comment <= j < after.next_comment ==> #[trigger] placed_in(
            after,
            before.groups@.len() as int,
            after.comments@[j].text@,
        )
}

/// Text `t` stands in one of the groups of `st` from handle `from` on.
pub open spec fn placed_in(st: MakeSegsState, from: int, t: Seq<char>) -> bool {
    exists|g: int, k: int|
        from <= g < st.groups@.len() && 0 <= k < st.arena()[g].len() && #[trigger] st.arena()[g][k]
            == Seg::Text(t)
}

/// Where each comment's text stands among its segments.
pub proof fn lemma_comment_segs_text(cs: Seq<Comment>, depth: nat, closing: bool, m: int)
    requires
        0 <= m < cs.len(),
    ensures
        comment_segs(cs, depth, closing).len() == 2 * cs.len(),
        comment_segs(cs, depth, closing)[2 * m + if closing { 1int } else { 0int }] == Seg::Text(
            cs[m].text@,
        ),
    decreases cs.len(),
{
    lemma_comment_segs_len(cs, depth, closing);
    if m < cs.len() - 1 {
        lemma_comment_segs_text(cs.drop_last(), depth, closing, m);
    }
}

/// Two segments per comment.
pub proof fn lemma_comment_segs_len(cs: Seq<Comment>, depth: nat, closing: bool)
    ensures
        comment_segs(cs, depth, closing).len() == 2 * cs.len(),
    decreases cs.len(),
{
    if cs.len() > 0 {
        lemma_comment_segs_len(cs.drop_last(), depth, closing);
    }
}

/// The segments that place comments `cs` between two pieces of text: each
/// on a line of its own, with the text that follows on a fresh line.
pub open spec fn between_segs(cs: Seq<Comment>, depth: nat) -> Seq<Seg> {
    if cs.len() == 0 {
        Seq::empty()
    } else {
        comment_segs(cs, depth, true) + seq![Seg::Break { depth, always: true }]
    }
}

/// Comment segments placed between text hold no child group.
pub proof fn lemma_between_segs_no_child(cs: Seq<Comment>, depth: nat, n: int)
    ensures
        children_below(between_segs(cs, depth), n),
{
    lemma_comment_segs_no_child(cs, depth, true, n);
    lemma_children_below_append(comment_segs(cs, depth, true), seq![Seg::Break { depth, always: true }], n);
}

/// Places, before whatever `sg` gets next, every queued comment that starts
/// before `target`, each on a line of its own at `align`, starting on a fresh
/// line and leaving the next text on a fresh line.
pub fn append_comments_between(
    out: &mut MakeSegsState,
    align: &Alignment,
    sg: &mut SplitGroupBuilder,
    target: LineColumn,
)
    requires
        old(out).wf(),
    ensures
        final(out).extends(old(out)),
        final(out).groups@ == old(out).groups@,
        forall|j: int|
            old(out).next_comment <= j < final(out).next_comment ==> lc_lt(
                #[trigger] old(out).comments@[j].loc,
                target,
            ),
        final(out).next_comment == old(out).comments@.len() || !lc_lt(
            old(out).comments@[final(out).next_comment as int].loc,
            target,
        ),
        final(sg)@ == old(sg)@ + between_segs(
            old(out).comments@.subrange(old(out).next_comment as int, final(out).next_comment as int),
            align.depth as nat,
        ),
{
    let start = out.next_comment;
    place_comments(out, align, sg, target, true);
    if out.next_comment > start {
        sg.split_always(*align);
    } else {
        assert(out.comments@.subrange(start as int, start as int) =~= Seq::<Comment>::empty());
        assert(sg@ =~= old(sg)@ + between_segs(Seq::<Comment>::empty(), align.depth as nat));
    }
}

} // verus!
