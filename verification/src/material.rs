//! Material classification for renderable objects.
//!
//! These enums describe how an object's material is drawn: which rendering
//! pipeline handles it and which shader family shades it.  They are plain
//! labels; the renderer that consumes them lives outside this crate.

use vstd::prelude::*;

verus! {

/// How an object with a given material should be rendered.
#[derive(Debug, Clone, Copy, PartialEq, Eq, Structural)]
pub enum RenderMethod {
    /// Traditional forward rendering.
    ///
    /// Suitable for non-opaque objects or objects with complex reflections.
    Forward,
    /// A more efficient but less flexible deferred pipeline.
    ///
    /// Suitable for most opaque objects; alpha is always treated as fully
    /// opaque.
    Deferred,
}

/// Which shader family shades a material.
#[derive(Debug, Clone, Copy, PartialEq, Eq, Structural)]
pub enum MaterialShader {
    /// All-in-one lighting shader usable in deferred or forward contexts.
    Uber,
    Mirror,
    Metal,
    Matte,
    Substrate,
    Glass,
}

} // verus!
