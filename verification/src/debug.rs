//! Debug output: soft assertions, log lines, and texts and shapes for the
//! clients to draw.
//!
//! A game should rather run on with a gamelogic bug than crash, so a soft
//! assertion that fails only leaves a line in the log. Everything lands in a
//! `DebugContext` that the caller hands along; the server sends its texts and
//! shapes to the clients with each update and empties it.
use crate::messages::Vec3;
use vstd::prelude::*;
use vstd::string::StringExecFns;

verus! {

/// A colour with its opacity.
#[derive(Clone, Copy, PartialEq, Eq, Structural, Debug)]
pub struct Color {
    pub r: u8,
    pub g: u8,
    pub b: u8,
    pub a: u8,
}

impl Color {
    pub open spec fn spec_opaque(r: u8, g: u8, b: u8) -> Color {
        Color { r, g, b, a: 255 }
    }

    #[verifier::when_used_as_spec(spec_opaque)]
    pub fn opaque(r: u8, g: u8, b: u8) -> (c: Color)
        ensures
            c == Color::spec_opaque(r, g, b),
    {
        Color { r, g, b, a: 255 }
    }
}

/// What to draw. Points are in world coordinates.
#[derive(Clone, Copy, PartialEq, Eq, Structural, Debug)]
pub enum Shape {
    Line { begin: Vec3, end: Vec3 },
    Arrow { begin: Vec3, end: Vec3 },
    Cross { point: Vec3 },
}

/// A shape, how many seconds it stays (a 32-bit float by its bit pattern;
/// zero means one frame), and its colour.
#[derive(Clone, Copy, PartialEq, Eq, Structural, Debug)]
pub struct DebugShape {
    pub shape: Shape,
    pub time: u32,
    pub color: Color,
}

/// Where debug output lands.
pub struct DebugContext {
    /// Who is speaking; begins every line and text.
    pub name: String,
    /// The colour of shapes drawn without one.
    pub default_color: Color,
    /// The lines logged and not yet printed.
    pub log: Vec<String>,
    /// The texts to show on screen this frame.
    pub texts: Vec<String>,
    /// The shapes to draw.
    pub shapes: Vec<DebugShape>,
}

/// A line or text as it is kept: who speaks, a space, and what they say.
pub open spec fn spoken(name: Seq<char>, message: Seq<char>) -> Seq<char> {
    name + " "@ + message
}

/// What a failed soft assertion logs.
pub open spec fn failed_assertion(message: Seq<char>) -> Seq<char> {
    "soft assertion failed: "@ + message
}

/// Names with their values as `name: value`, separated by `, `.
pub open spec fn spec_format_pairs(pairs: Seq<(String, String)>) -> Seq<char>
    decreases pairs.len(),
{
    if pairs.len() == 0 {
        Seq::empty()
    } else if pairs.len() == 1 {
        pairs[0].0@ + ": "@ + pairs[0].1@
    } else {
        spec_format_pairs(pairs.drop_last()) + ", "@ + pairs.last().0@ + ": "@ + pairs.last().1@
    }
}

/// Formats names with their values as `name: value`, separated by `, `.
pub fn format_pairs(pairs: &Vec<(String, String)>) -> (s: String)
    ensures
        s@ == spec_format_pairs(pairs@),
{
    let mut s = String::new();
    let mut i: usize = 0;
    while i < pairs.len()
        invariant
            i <= pairs@.len(),
            s@ == spec_format_pairs(pairs@.take(i as int)),
        decreases pairs@.len() - i,
    {
        proof {
            assert(pairs@.take(i + 1).drop_last() =~= pairs@.take(i as int));
        }
        if i > 0 {
            s.append(", ");
        }
        s.append(pairs[i].0.as_str());
        s.append(": ");
        s.append(pairs[i].1.as_str());
        i = i + 1;
    }
    assert(pairs@.take(i as int) =~= pairs@);
    s
}

impl DebugContext {
    /// A context with nothing in it.
    pub fn new(name: &str, default_color: Color) -> (debug: DebugContext)
        ensures
            debug.name@ == name@,
            debug.default_color == default_color,
            debug.log@ == Seq::<String>::empty(),
            debug.texts@ == Seq::<String>::empty(),
            debug.shapes@ == Seq::<DebugShape>::empty(),
    {
        DebugContext {
            name: name.to_owned(),
            default_color,
            log: Vec::new(),
            texts: Vec::new(),
            shapes: Vec::new(),
        }
    }

    /// The colour of shapes drawn without one.
    pub fn default_color(&self) -> (color: Color)
        ensures
            color == self.default_color,
    {
        self.default_color
    }

    fn speak(&self, message: &str) -> (s: String)
        ensures
            s@ == spoken(self.name@, message@),
    {
        let mut s = self.name.clone();
        s.append(" ");
        s.append(message);
        s
    }

    /// Logs a line.
    pub fn logf(&mut self, message: &str)
        ensures
            final(self).log@.len() == old(self).log@.len() + 1,
            final(self).log@.last()@ == spoken(old(self).name@, message@),
            final(self).log@.drop_last() == old(self).log@,
            final(self).name == old(self).name,
            final(self).default_color == old(self).default_color,
            final(self).texts == old(self).texts,
            final(self).shapes == old(self).shapes,
    {
        let s = self.speak(message);
        self.log.push(s);
    }

    /// Logs names with their values.
    pub fn logd(&mut self, pairs: &Vec<(String, String)>)
        ensures
            final(self).log@.len() == old(self).log@.len() + 1,
            final(self).log@.last()@ == spoken(old(self).name@, spec_format_pairs(pairs@)),
            final(self).log@.drop_last() == old(self).log@,
            final(self).name == old(self).name,
            final(self).default_color == old(self).default_color,
            final(self).texts == old(self).texts,
            final(self).shapes == old(self).shapes,
    {
        let s = format_pairs(pairs);
        self.logf(s.as_str());
    }

    /// Puts a text on the screen for this frame.
    pub fn textf(&mut self, message: &str)
        ensures
            final(self).texts@.len() == old(self).texts@.len() + 1,
            final(self).texts@.last()@ == spoken(old(self).name@, message@),
            final(self).texts@.drop_last() == old(self).texts@,
            final(self).name == old(self).name,
            final(self).default_color == old(self).default_color,
            final(self).log == old(self).log,
            final(self).shapes == old(self).shapes,
    {
        let s = self.speak(message);
        self.texts.push(s);
    }

    /// Puts names with their values on the screen for this frame.
    pub fn textd(&mut self, pairs: &Vec<(String, String)>)
        ensures
            final(self).texts@.len() == old(self).texts@.len() + 1,
            final(self).texts@.last()@ == spoken(old(self).name@, spec_format_pairs(pairs@)),
            final(self).texts@.drop_last() == old(self).texts@,
            final(self).name == old(self).name,
            final(self).default_color == old(self).default_color,
            final(self).log == old(self).log,
            final(self).shapes == old(self).shapes,
    {
        let s = format_pairs(pairs);
        self.textf(s.as_str());
    }

    /// Like an assertion, but one that fails only logs a line.
    pub fn soft_assert(&mut self, cond: bool, message: &str)
        ensures
            cond ==> *final(self) == *old(self),
            !cond ==> {
                &&& final(self).log@.len() == old(self).log@.len() + 1
                &&& final(self).log@.last()@ == spoken(old(self).name@, failed_assertion(message@))
                &&& final(self).log@.drop_last() == old(self).log@
                &&& final(self).name == old(self).name
                &&& final(self).default_color == old(self).default_color
                &&& final(self).texts == old(self).texts
                &&& final(self).shapes == old(self).shapes
            },
    {
        if !cond {
            let mut s = "soft assertion failed: ".to_owned();
            s.append(message);
            self.logf(s.as_str());
        }
    }

    fn shape(&mut self, shape: Shape, time: u32, color: Color)
        ensures
            final(self).shapes@ == old(self).shapes@.push(DebugShape { shape, time, color }),
            final(self).name == old(self).name,
            final(self).default_color == old(self).default_color,
            final(self).log == old(self).log,
            final(self).texts == old(self).texts,
    {
        self.shapes.push(DebugShape { shape, time, color });
    }

    /// Draws a line from `begin` to `end` for `time` seconds.
    pub fn line(&mut self, begin: Vec3, end: Vec3, time: u32, color: Color)
        ensures
            final(self).shapes@ == old(self).shapes@.push(
                DebugShape { shape: Shape::Line { begin, end }, time, color },
            ),
            final(self).name == old(self).name,
            final(self).default_color == old(self).default_color,
            final(self).log == old(self).log,
            final(self).texts == old(self).texts,
    {
        self.shape(Shape::Line { begin, end }, time, color);
    }

    /// Draws an arrow from `begin` to `end` for `time` seconds.
    pub fn arrow(&mut self, begin: Vec3, end: Vec3, time: u32, color: Color)
        ensures
            final(self).shapes@ == old(self).shapes@.push(
                DebugShape { shape: Shape::Arrow { begin, end }, time, color },
            ),
            final(self).name == old(self).name,
            final(self).default_color == old(self).default_color,
            final(self).log == old(self).log,
            final(self).texts == old(self).texts,
    {
        self.shape(Shape::Arrow { begin, end }, time, color);
    }

    /// Draws a cross at `point` for `time` seconds.
    pub fn cross(&mut self, point: Vec3, time: u32, color: Color)
        ensures
            final(self).shapes@ == old(self).shapes@.push(
                DebugShape { shape: Shape::Cross { point }, time, color },
            ),
            final(self).name == old(self).name,
            final(self).default_color == old(self).default_color,
            final(self).log == old(self).log,
            final(self).texts == old(self).texts,
    {
        self.shape(Shape::Cross { point }, time, color);
    }

    /// Hands over the lines logged so far, to be printed, and forgets them.
    pub fn take_log(&mut self) -> (lines: Vec<String>)
        ensures
            lines == old(self).log,
            final(self).log@ == Seq::<String>::empty(),
            final(self).name == old(self).name,
            final(self).default_color == old(self).default_color,
            final(self).texts == old(self).texts,
            final(self).shapes == old(self).shapes,
    {
        let mut lines: Vec<String> = Vec::new();
        core::mem::swap(&mut lines, &mut self.log);
        lines
    }
}

} // verus!
