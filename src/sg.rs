//! Segments, split groups, their arena and the builder that fills it.
use vstd::prelude::*;

verus! {

/// Number of columns added by one level of indentation.
pub const INDENT_WIDTH: usize = 4;

/// A position in the source text: line and column.
#[derive(Clone, Copy, Debug, PartialEq, Eq, Structural)]
pub struct LineColumn {
    pub line: usize,
    pub column: usize,
}

/// Source order on positions: by line, then by column.
pub open spec fn lc_lt(a: LineColumn, b: LineColumn) -> bool {
    a.line < b.line || (a.line == b.line && a.column < b.column)
}

impl LineColumn {
    /// Whether `self` comes strictly before `other` in the source.
    pub fn before(&self, other: &LineColumn) -> (r: bool)
        ensures
            r == lc_lt(*self, *other),
    {
        self.line < other.line || (self.line == other.line && self.column < other.column)
    }
}

/// The indentation state threaded through segment construction: the column at
/// which a line broken at this alignment starts.
#[derive(Clone, Copy, Debug, PartialEq, Eq, Structural)]
pub struct Alignment {
    pub depth: usize,
}

impl Alignment {
    /// The outermost alignment, at column zero.
    pub fn new() -> (r: Alignment)
        ensures
            r.depth == 0,
    {
        Alignment { depth: 0 }
    }

    /// A new alignment one level deeper; `self` is left as it was.
    pub fn indent(&self) -> (r: Alignment)
        requires
            self.depth + INDENT_WIDTH <= usize::MAX,
        ensures
            r.depth == self.depth + INDENT_WIDTH,
    {
        Alignment { depth: self.depth + INDENT_WIDTH }
    }
}

/// One element of a split group's content.
#[derive(Debug)]
pub enum Segment {
    /// Text emitted whether the group renders flat or split.
    Text(String),
    /// Text emitted only when the group renders flat.
    FlatText(String),
    /// Text emitted only when the group renders split.
    SplitText(String),
    /// A break point: a new line at `align` when the group renders split.
    /// With `always` set the group is forced to split.
    Break { align: Alignment, always: bool },
    /// An embedded child group, by arena handle.
    Child(usize),
}

/// What a segment stands for, with text as a sequence of characters.
pub enum Seg {
    Text(Seq<char>),
    FlatText(Seq<char>),
    SplitText(Seq<char>),
    Break { depth: nat, always: bool },
    Child(nat),
}

impl View for Segment {
    type V = Seg;

    open spec fn view(&self) -> Seg {
        match self {
            Segment::Text(t) => Seg::Text(t@),
            Segment::FlatText(t) => Seg::FlatText(t@),
            Segment::SplitText(t) => Seg::SplitText(t@),
            Segment::Break { align, always } => Seg::Break { depth: align.depth as nat, always: *always },
            Segment::Child(c) => Seg::Child(*c as nat),
        }
    }
}

/// The model of a sequence of segments.
pub open spec fn segs_view(v: Seq<Segment>) -> Seq<Seg> {
    v.map_values(|s: Segment| s@)
}

/// An ordered sequence of segments, built once and then left unchanged.
#[derive(Debug)]
pub struct SplitGroup {
    pub segs: Vec<Segment>,
}

impl View for SplitGroup {
    type V = Seq<Seg>;

    open spec fn view(&self) -> Seq<Seg> {
        segs_view(self.segs@)
    }
}

/// The model of an arena: one segment sequence per handle.
pub open spec fn arena_view(v: Seq<SplitGroup>) -> Seq<Seq<Seg>> {
    v.map_values(|g: SplitGroup| g@)
}

/// Every child handle in `segs` is below `n`.
pub open spec fn children_below(segs: Seq<Seg>, n: int) -> bool {
    forall|k: int| 0 <= k < segs.len() ==> (#[trigger] segs[k] matches Seg::Child(c) ==> c < n)
}

/// An arena is well formed when every group refers only to groups stored
/// before it: the groups form a DAG, and recursion over handles terminates.
pub open spec fn arena_wf(groups: Seq<Seq<Seg>>) -> bool {
    forall|i: int| 0 <= i < groups.len() ==> children_below(#[trigger] groups[i], i)
}

/// The only way to fill a split group: segments are appended, then the group
/// is moved into the arena by `build`.
pub struct SplitGroupBuilder {
    pub segs: Vec<Segment>,
}

impl View for SplitGroupBuilder {
    type V = Seq<Seg>;

    open spec fn view(&self) -> Seq<Seg> {
        segs_view(self.segs@)
    }
}

impl SplitGroupBuilder {
    /// An empty builder.
    pub fn new() -> (r: SplitGroupBuilder)
        ensures
            r@ == Seq::<Seg>::empty(),
    {
        let r = SplitGroupBuilder { segs: Vec::new() };
        assert(r@ =~= Seq::<Seg>::empty());
        r
    }

    fn push_seg(&mut self, s: Segment)
        ensures
            final(self)@ == old(self)@.push(s@),
    {
        self.segs.push(s);
        assert(final(self)@ =~= old(self)@.push(s@));
    }

    /// Appends text emitted in both renderings.
    pub fn seg(&mut self, text: &str)
        ensures
            final(self)@ == old(self)@.push(Seg::Text(text@)),
    {
        self.push_seg(Segment::Text(String::from_str(text)));
    }

    /// Appends text emitted only if the group renders flat.
    pub fn seg_unsplit(&mut self, text: &str)
        ensures
            final(self)@ == old(self)@.push(Seg::FlatText(text@)),
    {
        self.push_seg(Segment::FlatText(String::from_str(text)));
    }

    /// Appends text emitted only if the group renders split.
    pub fn seg_split(&mut self, text: &str)
        ensures
            final(self)@ == old(self)@.push(Seg::SplitText(text@)),
    {
        self.push_seg(Segment::SplitText(String::from_str(text)));
    }

    /// Appends an optional break point: it breaks only if the group splits.
    pub fn split(&mut self, align: Alignment)
        ensures
            final(self)@ == old(self)@.push(Seg::Break { depth: align.depth as nat, always: false }),
    {
        self.push_seg(Segment::Break { align, always: false });
    }

    /// Appends a required break point: the group always splits.
    pub fn split_always(&mut self, align: Alignment)
        ensures
            final(self)@ == old(self)@.push(Seg::Break { depth: align.depth as nat, always: true }),
    {
        self.push_seg(Segment::Break { align, always: true });
    }

    /// Embeds a finished group.
    pub fn child(&mut self, idx: usize)
        ensures
            final(self)@ == old(self)@.push(Seg::Child(idx as nat)),
    {
        self.push_seg(Segment::Child(idx));
    }
}

} // verus!
