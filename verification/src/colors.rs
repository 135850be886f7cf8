//! Colours for debug drawing. They follow no standard naming scheme.
use crate::debug::Color;
use vstd::prelude::*;

verus! {

pub fn white() -> (c: Color)
    ensures
        c == Color::spec_opaque(255, 255, 255),
{
    Color::opaque(255, 255, 255)
}

pub fn black() -> (c: Color)
    ensures
        c == Color::spec_opaque(0, 0, 0),
{
    Color::opaque(0, 0, 0)
}

pub fn red() -> (c: Color)
    ensures
        c == Color::spec_opaque(255, 0, 0),
{
    Color::opaque(255, 0, 0)
}

pub fn green() -> (c: Color)
    ensures
        c == Color::spec_opaque(0, 255, 0),
{
    Color::opaque(0, 255, 0)
}

pub fn blue() -> (c: Color)
    ensures
        c == Color::spec_opaque(0, 0, 255),
{
    Color::opaque(0, 0, 255)
}

/// A blue that can be seen against black.
pub fn blue2() -> (c: Color)
    ensures
        c == Color::spec_opaque(0, 100, 255),
{
    Color::opaque(0, 100, 255)
}

pub fn yellow() -> (c: Color)
    ensures
        c == Color::spec_opaque(255, 255, 0),
{
    Color::opaque(255, 255, 0)
}

pub fn magenta() -> (c: Color)
    ensures
        c == Color::spec_opaque(255, 0, 255),
{
    Color::opaque(255, 0, 255)
}

pub fn cyan() -> (c: Color)
    ensures
        c == Color::spec_opaque(0, 255, 255),
{
    Color::opaque(0, 255, 255)
}

} // verus!
