//! Layer-shell stacking: which surface the pointer is over when layer
//! surfaces and windows overlap, and which layer surface takes the keyboard
//! when one asks for it exclusively.

use vstd::prelude::*;

verus! {

/// The four layer-shell layers, bottom to top.
#[derive(Debug, Clone, Copy, PartialEq, Eq, Structural)]
pub enum Layer {
    Background,
    Bottom,
    Top,
    Overlay,
}

/// How a layer surface asks for the keyboard.
#[derive(Debug, Clone, Copy, PartialEq, Eq, Structural)]
pub enum Interactivity {
    /// Never.
    NoFocus,
    /// Whenever it is mapped: nothing else may have the keyboard.
    Exclusive,
    /// When the operator gives it focus.
    OnDemand,
}

/// The first of the candidates that is there, in stacking order: the
/// overlay and top layers above the windows, then the windows, then the
/// bottom and background layers.
pub open spec fn first_present<T>(overlay: Option<T>, top: Option<T>, window: Option<T>, bottom: Option<T>, background: Option<T>) -> Option<T> {
    if overlay is Some {
        overlay
    } else if top is Some {
        top
    } else if window is Some {
        window
    } else if bottom is Some {
        bottom
    } else {
        background
    }
}

/// The surface under the pointer, given what each plane has under it: the
/// topmost plane with a surface there wins.
pub fn surface_under<T>(overlay: Option<T>, top: Option<T>, window: Option<T>, bottom: Option<T>, background: Option<T>) -> (r: Option<T>)
    ensures
        r == first_present(overlay, top, window, bottom, background),
        overlay is Some ==> r == overlay,
        overlay is None && top is Some ==> r == top,
        overlay is None && top is None && window is Some ==> r == window,
        overlay is None && top is None && window is None && bottom is Some ==> r == bottom,
        overlay is None && top is None && window is None && bottom is None ==> r == background,
{
    if overlay.is_some() {
        overlay
    } else if top.is_some() {
        top
    } else if window.is_some() {
        window
    } else if bottom.is_some() {
        bottom
    } else {
        background
    }
}

/// The stacking order, top to bottom: the overlay layer is above
/// everything, the top layer above the windows, and the bottom and
/// background layers below them; the pointer picks the highest plane that
/// has a surface there, and nothing only when no plane has one.
pub proof fn lemma_stacking_order<T>(
    overlay: Option<T>,
    top: Option<T>,
    window: Option<T>,
    bottom: Option<T>,
    background: Option<T>,
)
    ensures
        overlay is Some ==> first_present(overlay, top, window, bottom, background) == overlay,
        overlay is None && top is Some ==> first_present(overlay, top, window, bottom, background) == top,
        overlay is None && top is None && window is Some ==> first_present(overlay, top, window, bottom, background)
            == window,
        overlay is None && top is None && window is None && bottom is Some ==> first_present(
            overlay,
            top,
            window,
            bottom,
            background,
        ) == bottom,
        overlay is None && top is None && window is None && bottom is None ==> first_present(
            overlay,
            top,
            window,
            bottom,
            background,
        ) == background,
{
}

/// A layer surface that takes the keyboard away from the windows: it asks
/// for it exclusively and sits above them.
pub open spec fn takes_keyboard(l: (Layer, Interactivity)) -> bool {
    l.1 == Interactivity::Exclusive && (l.0 == Layer::Top || l.0 == Layer::Overlay)
}

/// A surface on the top or overlay layer that asks for the keyboard
/// exclusively takes it; no surface on the bottom or background layer does,
/// and no surface that does not ask exclusively does.
pub proof fn lemma_who_takes_the_keyboard(l: (Layer, Interactivity))
    ensures
        l.1 == Interactivity::Exclusive && l.0 == Layer::Top ==> takes_keyboard(l),
        l.1 == Interactivity::Exclusive && l.0 == Layer::Overlay ==> takes_keyboard(l),
        l.0 == Layer::Bottom || l.0 == Layer::Background ==> !takes_keyboard(l),
        l.1 != Interactivity::Exclusive ==> !takes_keyboard(l),
{
}

/// Which of the mapped layer surfaces, in mapping order, gets the keyboard:
/// the most recently mapped one that takes it, or none.
pub fn exclusive_focus(layers: &[(Layer, Interactivity)]) -> (r: Option<usize>)
    ensures
        match r {
            Some(i) => i < layers@.len() && takes_keyboard(layers@[i as int]) && forall|j: int|
                i < j < layers@.len() ==> !takes_keyboard(#[trigger] layers@[j]),
            None => forall|j: int| 0 <= j < layers@.len() ==> !takes_keyboard(#[trigger] layers@[j]),
        },
        r matches Some(i) ==> layers@[i as int].1 == Interactivity::Exclusive && (layers@[i as int].0
            == Layer::Top || layers@[i as int].0 == Layer::Overlay),
        forall|j: int|
            0 <= j < layers@.len() && (#[trigger] layers@[j]).1 == Interactivity::Exclusive && (layers@[j].0
                == Layer::Top || layers@[j].0 == Layer::Overlay) ==> (r matches Some(i) && j <= i),
{
    let mut i = layers.len();
    while i > 0
        invariant
            i <= layers@.len(),
            forall|j: int| i <= j < layers@.len() ==> !takes_keyboard(#[trigger] layers@[j]),
        decreases i,
    {
        let (layer, inter) = layers[i - 1];
        let above = match layer {
            Layer::Top => true,
            Layer::Overlay => true,
            _ => false,
        };
        let exclusive = match inter {
            Interactivity::Exclusive => true,
            _ => false,
        };
        if exclusive && above {
            return Some(i - 1);
        }
        i = i - 1;
    }
    None
}

} // verus!
