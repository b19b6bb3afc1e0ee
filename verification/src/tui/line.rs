//! Lines of styled text, as they go to the screen.

use vstd::prelude::*;

verus! {

/// How a piece of text looks.
#[derive(Copy, Clone, Debug, PartialEq, Eq, Structural)]
pub enum Style {
    Plain,
    /// With the colours of text and ground exchanged.
    Reversed,
    Cyan,
    Red,
    Yellow,
    /// Yellow and bold.
    Title,
}

/// A piece of text of one style.
#[derive(Clone, Debug)]
pub struct Span {
    pub content: String,
    pub style: Style,
}

impl View for Span {
    type V = (Seq<char>, Style);

    open spec fn view(&self) -> (Seq<char>, Style) {
        (self.content@, self.style)
    }
}

/// A line on the screen.
#[derive(Clone, Debug)]
pub struct Line {
    pub spans: Vec<Span>,
}

impl View for Line {
    type V = Seq<(Seq<char>, Style)>;

    open spec fn view(&self) -> Seq<(Seq<char>, Style)> {
        self.spans@.map_values(|s: Span| s@)
    }
}

impl Line {
    pub fn new() -> (line: Self)
        ensures
            line@ == Seq::<(Seq<char>, Style)>::empty(),
    {
        let line = Line { spans: Vec::new() };
        assert(line@ =~= Seq::<(Seq<char>, Style)>::empty());
        line
    }

    /// Appends a piece of text.
    pub fn push(&mut self, content: String, style: Style)
        ensures
            final(self)@ == old(self)@.push((content@, style)),
    {
        self.spans.push(Span { content, style });
        assert(self@ =~= old(self)@.push((content@, style)));
    }

    /// The line of one piece of text.
    pub fn styled(content: String, style: Style) -> (line: Self)
        ensures
            line@ == seq![(content@, style)],
    {
        let mut line = Line::new();
        line.push(content, style);
        assert(line@ =~= seq![(content@, style)]);
        line
    }
}

} // verus!
