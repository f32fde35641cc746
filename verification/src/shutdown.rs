//! Composable teardown tokens: an unordered collection of
//! per-arrangement shutdown buttons with idempotent pressing.

use vstd::prelude::*;

verus! {

use crate::Aid;

/// One press-once shutdown button, tagged with the name of the
/// arrangement import it deactivates.
pub struct ShutdownButton {
    /// The attribute or relation name whose import this button
    /// releases.
    pub source: Aid,
    /// Whether the button has been pressed.
    pub pressed: bool,
}

impl ShutdownButton {
    /// A fresh, unpressed button for the named import.
    pub fn new(source: Aid) -> (r: ShutdownButton)
        ensures
            r.source@ == source@,
            !r.pressed,
    {
        ShutdownButton { source, pressed: false }
    }
}

/// An unordered collection of per-arrangement shutdown buttons.
/// Dropping the handle, or explicit `press`, deactivates every
/// referenced import.
pub struct ShutdownHandle {
    /// The buttons owned by this handle.
    pub buttons: Vec<ShutdownButton>,
}

/// The abstraction of a handle: each button's source and pressed
/// state, in order.
pub open spec fn handle_model(h: ShutdownHandle) -> Seq<(Seq<char>, bool)> {
    Seq::new(h.buttons@.len(), |i: int| (h.buttons@[i].source@, h.buttons@[i].pressed))
}

/// The sources referenced by a handle, in order.
pub open spec fn handle_sources(h: ShutdownHandle) -> Seq<Seq<char>> {
    Seq::new(h.buttons@.len(), |i: int| h.buttons@[i].source@)
}

/// The state a handle reaches when pressed: every button pressed,
/// every source kept.
pub open spec fn pressed_model(m: Seq<(Seq<char>, bool)>) -> Seq<(Seq<char>, bool)> {
    Seq::new(m.len(), |i: int| (m[i].0, true))
}

impl ShutdownHandle {
    /// A handle owning no buttons.
    pub fn empty() -> (r: ShutdownHandle)
        ensures
            handle_model(r) == Seq::<(Seq<char>, bool)>::empty(),
    {
        let r = ShutdownHandle { buttons: Vec::new() };
        proof {
            assert(handle_model(r) =~= Seq::<(Seq<char>, bool)>::empty());
        }
        r
    }

    /// A handle owning exactly one button.
    pub fn from_button(button: ShutdownButton) -> (r: ShutdownHandle)
        ensures
            handle_model(r) == Seq::<(Seq<char>, bool)>::empty().push(
                (button.source@, button.pressed),
            ),
    {
        let ghost b = (button.source@, button.pressed);
        let mut buttons: Vec<ShutdownButton> = Vec::new();
        buttons.push(button);
        let r = ShutdownHandle { buttons };
        proof {
            assert(handle_model(r) =~= Seq::<(Seq<char>, bool)>::empty().push(b));
        }
        r
    }

    /// Inserts one more button.
    pub fn add_button(&mut self, button: ShutdownButton)
        ensures
            handle_model(*final(self)) == handle_model(*old(self)).push(
                (button.source@, button.pressed),
            ),
    {
        let ghost b = (button.source@, button.pressed);
        let ghost prev = handle_model(*self);
        self.buttons.push(button);
        proof {
            assert(handle_model(*self) =~= prev.push(b));
        }
    }

    /// Unions another handle into this one.
    pub fn merge_with(&mut self, other: ShutdownHandle)
        ensures
            handle_model(*final(self)) == handle_model(*old(self)) + handle_model(other),
    {
        let ghost prev = handle_model(*self);
        let ghost ov = handle_model(other);
        let mut rest = other.buttons;
        self.buttons.append(&mut rest);
        proof {
            assert(handle_model(*self) =~= prev + ov);
        }
    }

    /// Presses every button this handle owns: each referenced import
    /// is deactivated, each constituent pressed exactly once per
    /// call, and no source is forgotten.
    pub fn press(&mut self)
        ensures
            handle_model(*final(self)) == pressed_model(handle_model(*old(self))),
    {
        let ghost prev = handle_model(*self);
        let mut i: usize = 0;
        while i < self.buttons.len()
            invariant
                i <= self.buttons@.len(),
                self.buttons@.len() == prev.len(),
                forall|j: int|
                    0 <= j < prev.len() ==> (#[trigger] self.buttons@[j]).source@ == prev[j].0,
                forall|j: int| 0 <= j < i ==> (#[trigger] self.buttons@[j]).pressed,
                forall|j: int|
                    i <= j < prev.len() ==> (#[trigger] self.buttons@[j]).pressed == prev[j].1,
            decreases self.buttons@.len() - i,
        {
            let source = self.buttons[i].source.clone();
            self.buttons.set(i, ShutdownButton { source, pressed: true });
            i = i + 1;
        }
        proof {
            assert(handle_model(*self) =~= pressed_model(prev));
        }
    }
}

/// Shutdown soundness, pressing side: pressing a handle presses
/// every constituent button while keeping every source, and pressing
/// is idempotent — a second press leaves the handle exactly as it
/// was.
pub proof fn lemma_press_sound(m: Seq<(Seq<char>, bool)>)
    ensures
        pressed_model(m).len() == m.len(),
        forall|i: int| 0 <= i < m.len() ==> (#[trigger] pressed_model(m)[i]) == (m[i].0, true),
        pressed_model(pressed_model(m)) == pressed_model(m),
{
    assert(pressed_model(pressed_model(m)) =~= pressed_model(m));
}

/// Shutdown composition is associative: merging handles in either
/// grouping yields the same buttons.
pub proof fn lemma_merge_associative(
    a: Seq<(Seq<char>, bool)>,
    b: Seq<(Seq<char>, bool)>,
    c: Seq<(Seq<char>, bool)>,
)
    ensures
        (a + b) + c == a + (b + c),
{
    assert((a + b) + c =~= a + (b + c));
}

} // verus!
